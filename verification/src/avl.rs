use vstd::prelude::*;
use crate::digest::{blake3_digest, compute_node_digest, le_bytes, le_word, node_digest};
use crate::error::SovereignError;
use crate::keys::{compare_keys, copy_bytes, key_lt, lemma_key_order_all, KeyOrder};
use crate::storage::{is_live, lookup_error, NodeContainer, NodeView, RawIndex, NULL_INDEX};
use crate::tree::{
    agree_on, audit_violation, balanced, bin, child_digest, content, dbl, delete_mid, delete_post, digest_ok,
    digests_ok, distinct, expected_digest, frame_outside, height, heights_ok, ids, inorder, insert_mid, insert_post,
    keys_increasing, left_of, leftmost, lemma_agree_except, lemma_attach_del_left, lemma_attach_del_right,
    lemma_attach_left, lemma_attach_right, lemma_balanced_size, lemma_children_live, lemma_content_side,
    lemma_distinct_rotation, lemma_frame, lemma_height_bound, lemma_inorder, lemma_leftmost_min, lemma_linked_live,
    lemma_member_key, lemma_no_violation, lemma_root_in_ids, lemma_rotate_left_keys, lemma_rotate_right_keys,
    lemma_value_update, linked, ordered, spine_violation, delete_violation, lemma_frame_spine,
    lemma_min_delete_reads_spine, rebal_del, ins_shape, rebal_ins, key_at, rot_left, rot_right, bal_of, del_shape,
    lemma_frame_del_shape, fib, lemma_balanced_fib, lemma_sorted_listing_unique, path_violation, right_of, root_of, same_payload_view, size, sound,
    unchanged_except, validation, lemma_validation_ok, lemma_validation_sound, path_ids, lemma_path_violation,
    lemma_digests_ok_all, lemma_audit_violation, Shape,
};

verus! {

/// A child index that is either absent or names a live slot.
pub open spec fn child_ok(s: Seq<NodeView>, c: RawIndex) -> bool {
    c == NULL_INDEX || is_live(s, c)
}

/// The height stored at `c`, or 0 where there is no live node.
pub open spec fn stored_height(s: Seq<NodeView>, c: RawIndex) -> int {
    if is_live(s, c) {
        s[c as int].height as int
    } else {
        0
    }
}

pub open spec fn max_int(a: int, b: int) -> int {
    if a >= b {
        a
    } else {
        b
    }
}

/// One line of a tree dump: a node's depth, key, stored height and stored
/// digest.
pub struct DumpLine {
    pub depth: usize,
    pub key: Vec<u8>,
    pub height: i32,
    pub hash: u64,
}

impl View for DumpLine {
    type V = (nat, Seq<u8>, i32, u64);

    open spec fn view(&self) -> (nat, Seq<u8>, i32, u64) {
        (self.depth as nat, self.key@, self.height, self.hash)
    }
}

/// The dump of a subtree whose root sits at `depth`: node first, then the
/// left subtree, then the right one, one level deeper.
pub open spec fn dump_lines(s: Seq<NodeView>, t: Shape, depth: nat) -> Seq<(nat, Seq<u8>, i32, u64)>
    decreases t,
{
    match t {
        Shape::Nil => Seq::empty(),
        Shape::Bin(l, id, r) => seq![(depth, s[id as int].key, s[id as int].height, s[id as int].hash)]
            + dump_lines(s, *l, depth + 1) + dump_lines(s, *r, depth + 1),
    }
}

/// The key that a bound of validation stands for, if there is one.
pub open spec fn bound_view(b: Option<&Vec<u8>>) -> Option<Seq<u8>> {
    match b {
        Some(m) => Some(m@),
        None => None,
    }
}

/// A value with the lowest bit of its first byte inverted.
pub open spec fn flip_first_bit(v: Seq<u8>) -> Seq<u8> {
    v.update(0, v[0] ^ 1u8)
}

/// The slots of `set` hold the same keys and values in `s2` as in `s`.
pub open spec fn payload_kept(s: Seq<NodeView>, s2: Seq<NodeView>, set: Set<int>) -> bool {
    forall|i: int| #[trigger] set.contains(i) ==> 0 <= i < s2.len() && s2[i].key == s[i].key && s2[i].value == s[i].value
}

/// Inverting the lowest bit of the first byte of a non-empty value changes
/// that byte and nothing else: the result has the same length, its first
/// byte differs from the old one in exactly the lowest bit, and every other
/// byte is kept.
pub proof fn lemma_flip_changes_first_byte(v: Seq<u8>)
    requires
        v.len() > 0,
    ensures
        flip_first_bit(v).len() == v.len(),
        flip_first_bit(v)[0] == v[0] ^ 1u8,
        flip_first_bit(v)[0] != v[0],
        flip_first_bit(v)[0] ^ v[0] == 1u8,
        forall|j: int| 1 <= j < v.len() ==> #[trigger] flip_first_bit(v)[j] == v[j],
        flip_first_bit(v) != v,
{
    let x = v[0];
    assert(x ^ 1u8 != x && (x ^ 1u8) ^ x == 1u8) by (bit_vector);
    assert(flip_first_bit(v)[0] != v[0]);
}

/// A self-auditing AVL tree stored in a generational arena.
pub struct SovereignAVL {
    storage: NodeContainer,
    root: RawIndex,
    shape: Ghost<Shape>,
}

impl SovereignAVL {
    /// The arena slots.
    pub closed spec fn slots(&self) -> Seq<NodeView> {
        self.storage.slots()
    }

    /// The arena is consistent, the links from the root trace a sound AVL
    /// search tree, and exactly the slots of that tree are live.
    pub closed spec fn wf(&self) -> bool {
        &&& self.storage.wf()
        &&& sound(self.storage.slots(), self.shape@, self.root)
        &&& forall|i: int|
            0 <= i < self.storage.slots().len() ==> (#[trigger] self.storage.slots()[i].is_active
                <==> ids(self.shape@).contains(i))
    }

    /// Every node of the tree carries the digest of its key, its value and its
    /// children's digests.
    pub closed spec fn intact(&self) -> bool {
        digests_ok(self.storage.slots(), self.shape@)
    }

    /// The first node on the search path for `k` whose stored digest is wrong.
    pub closed spec fn first_bad_on_path(&self, k: Seq<u8>) -> Option<RawIndex> {
        path_violation(self.storage.slots(), self.shape@, k)
    }

    /// The slots a search for `k` visits, from the root down to `k`'s node or
    /// to the place where `k` would hang.
    pub closed spec fn search_path(&self, k: Seq<u8>) -> Set<int> {
        path_ids(self.storage.slots(), self.shape@, k)
    }

    /// The first node of the tree in pre-order whose stored digest is wrong.
    pub closed spec fn first_bad_node(&self) -> Option<RawIndex> {
        audit_violation(self.storage.slots(), self.shape@)
    }

    /// The number of slots in the arena, live or released.
    pub closed spec fn slot_count(&self) -> nat {
        self.storage.slots().len()
    }

    /// The released slots, the one to be reused next last.
    pub closed spec fn free_slots(&self) -> Seq<RawIndex> {
        self.storage.free()
    }

    /// The generation of slot `i`.
    pub closed spec fn generation_of(&self, i: int) -> u32 {
        self.storage.slots()[i].generation
    }

    /// The generation of the slot that the next insertion would reuse, if any.
    pub open spec fn next_reuse_generation(&self) -> Option<u32> {
        if self.free_slots().len() > 0 {
            Some(self.generation_of(self.free_slots().last() as int))
        } else {
            None
        }
    }

    /// Which slots make up the tree, and how they hang together.
    pub closed spec fn tree_shape(&self) -> Shape {
        self.shape@
    }

    /// The slot that the next insertion of a new key fills.
    pub closed spec fn next_slot(&self) -> RawIndex {
        self.storage.next_slot()
    }

    /// Slot `i` holds a live node.
    pub closed spec fn slot_live(&self, i: int) -> bool {
        0 <= i < self.storage.slots().len() && self.storage.slots()[i].is_active
    }

    /// The first node with a wrong digest among those a deletion of `k` reads:
    /// the search path down to `k`, and, where `k`'s node has two children,
    /// the path from its right child down to its successor.
    pub closed spec fn first_bad_for_delete(&self, k: Seq<u8>) -> Option<RawIndex> {
        delete_violation(self.storage.slots(), self.shape@, k)
    }

    /// Both trees have the same free list, root and shape; their slots may
    /// differ.
    pub closed spec fn same_layout(&self, other: &Self) -> bool {
        &&& self.storage.free() == other.storage.free()
        &&& self.root == other.root
        &&& self.shape == other.shape
    }

    /// Both trees are in the same state: same slots, free list, root and shape.
    pub closed spec fn same_state(&self, other: &Self) -> bool {
        &&& self.storage.slots() == other.storage.slots()
        &&& self.storage.free() == other.storage.free()
        &&& self.root == other.root
        &&& self.shape == other.shape
    }

    /// The next insertion of a new key cannot get a slot: the slot to be
    /// reused has exhausted its generations, or the arena is full.
    pub closed spec fn alloc_fails(&self) -> bool {
        self.storage.alloc_fails()
    }

    pub fn new() -> (r: Self)
        ensures
            r.wf(),
            r@ == Map::<Seq<u8>, Seq<u8>>::empty(),
            r.intact(),
            !r.alloc_fails(),
            r.first_bad_node() is None,
            r.slot_count() == 0,
            r.free_slots() == Seq::<RawIndex>::empty(),
    {
        Self { storage: NodeContainer::new(), root: NULL_INDEX, shape: Ghost(Shape::Nil) }
    }

    fn get_height(&self, id: RawIndex) -> (h: i32)
        ensures
            h == stored_height(self.storage.slots(), id),
    {
        if id == NULL_INDEX {
            0
        } else {
            match self.storage.get(id) {
                Ok(n) => n.height,
                Err(_) => 0,
            }
        }
    }

    fn update_height(&mut self, id: RawIndex) -> (r: Result<(), SovereignError>)
        requires
            old(self).storage.wf(),
            is_live(old(self).storage.slots(), id),
            child_ok(old(self).storage.slots(), old(self).storage.slots()[id as int].left),
            child_ok(old(self).storage.slots(), old(self).storage.slots()[id as int].right),
            max_int(
                stored_height(old(self).storage.slots(), old(self).storage.slots()[id as int].left),
                stored_height(old(self).storage.slots(), old(self).storage.slots()[id as int].right),
            ) < i32::MAX,
        ensures
            r is Ok,
            final(self).storage.wf(),
            final(self).root == old(self).root,
            final(self).shape == old(self).shape,
            final(self).storage.free() == old(self).storage.free(),
            final(self).storage.slots() == old(self).storage.slots().update(
                id as int,
                NodeView {
                    height: (1 + max_int(
                        stored_height(old(self).storage.slots(), old(self).storage.slots()[id as int].left),
                        stored_height(old(self).storage.slots(), old(self).storage.slots()[id as int].right),
                    )) as i32,
                    hash: expected_digest(old(self).storage.slots(), id),
                    ..old(self).storage.slots()[id as int]
                },
            ),
    {
        let left_h = self.get_height(self.storage.get(id)?.left);
        let right_h = self.get_height(self.storage.get(id)?.right);
        self.storage.get_mut(id)?.height = 1 + if left_h >= right_h { left_h } else { right_h };
        let ghost mid = self.storage.slots();
        proof {
            assert(mid[id as int].left == old(self).storage.slots()[id as int].left);
            assert(child_ok(mid, mid[id as int].left));
            assert(child_ok(mid, mid[id as int].right));
        }
        self.update_hash(id)?;
        proof {
            let s0 = old(self).storage.slots();
            assert(child_digest(mid, s0[id as int].left) == child_digest(s0, s0[id as int].left));
            assert(child_digest(mid, s0[id as int].right) == child_digest(s0, s0[id as int].right));
            assert(expected_digest(mid, id) == expected_digest(s0, id));
            assert(self.storage.slots() =~= s0.update(
                id as int,
                NodeView {
                    height: (1 + max_int(
                        stored_height(s0, s0[id as int].left),
                        stored_height(s0, s0[id as int].right),
                    )) as i32,
                    hash: expected_digest(s0, id),
                    ..s0[id as int]
                },
            ));
        }
        Ok(())
    }

    fn get_balance(&self, id: RawIndex) -> (r: Result<i32, SovereignError>)
        requires
            is_live(self.storage.slots(), id) ==> i32::MIN <= stored_height(
                self.storage.slots(),
                self.storage.slots()[id as int].left,
            ) - stored_height(self.storage.slots(), self.storage.slots()[id as int].right) <= i32::MAX,
        ensures
            r == if id == NULL_INDEX {
                Ok(0i32)
            } else if is_live(self.storage.slots(), id) {
                Ok((stored_height(self.storage.slots(), self.storage.slots()[id as int].left)
                    - stored_height(self.storage.slots(), self.storage.slots()[id as int].right)) as i32)
            } else {
                Err(lookup_error(self.storage.slots(), id))
            },
    {
        if id == NULL_INDEX {
            Ok(0)
        } else {
            let node = self.storage.get(id)?;
            Ok(self.get_height(node.left) - self.get_height(node.right))
        }
    }

    /// Right rotation at `y`, whose subtree is `bin(bin(a, x, b), y, c)`:
    /// afterwards `x` roots `bin(a, x, bin(b, y, c))`, with fresh heights and
    /// digests at `x` and `y`.
    fn rotate_right(&mut self, y: RawIndex, Ghost(t): Ghost<Shape>) -> (r: Result<RawIndex, SovereignError>)
        requires
            old(self).storage.wf(),
            t is Bin,
            left_of(t) is Bin,
            linked(old(self).storage.slots(), t, y),
            distinct(t),
            heights_ok(old(self).storage.slots(), left_of(left_of(t))),
            heights_ok(old(self).storage.slots(), right_of(left_of(t))),
            heights_ok(old(self).storage.slots(), right_of(t)),
            height(left_of(left_of(t))) <= 99,
            height(right_of(left_of(t))) <= 99,
            height(right_of(t)) <= 99,
        ensures
            ({
                let s = old(self).storage.slots();
                let s2 = final(self).storage.slots();
                let a = left_of(left_of(t));
                let x = root_of(left_of(t));
                let b = right_of(left_of(t));
                let c = right_of(t);
                let t2 = bin(a, x, bin(b, y, c));
                &&& r == Ok::<RawIndex, SovereignError>(x)
                &&& final(self).storage.wf()
                &&& final(self).root == old(self).root
                &&& final(self).shape == old(self).shape
                &&& final(self).storage.free() == old(self).storage.free()
                &&& unchanged_except(s, s2, x as int, y as int)
                &&& same_payload_view(s2[x as int], s[x as int])
                &&& same_payload_view(s2[y as int], s[y as int])
                &&& linked(s2, t2, x)
                &&& distinct(t2)
                &&& ids(t2) == ids(t)
                &&& heights_ok(s2, t2)
                &&& digest_ok(s2, x)
                &&& digest_ok(s2, y)
                &&& (ordered(s, t) ==> ordered(s2, t2) && content(s2, t2) == content(s, t))
                &&& (digests_ok(s, a) && digests_ok(s, b) && digests_ok(s, c) ==> digests_ok(s2, t2))
            }),
    {
        let ghost s = self.storage.slots();
        let ghost a = left_of(left_of(t));
        let ghost b = right_of(left_of(t));
        let ghost c = right_of(t);
        let ghost gx = root_of(left_of(t));
        proof {
            assert(t == bin(bin(a, gx, b), y, c));
            lemma_distinct_rotation(a, gx, b, y, c);
            assert(linked(s, left_of(t), s[y as int].left));
            lemma_linked_live(s, left_of(t), s[y as int].left);
            assert(linked(s, a, s[gx as int].left));
            lemma_linked_live(s, a, s[gx as int].left);
            lemma_linked_live(s, b, s[gx as int].right);
            lemma_linked_live(s, c, s[y as int].right);
        }
        let x = self.storage.get(y)?.left;
        let t2 = self.storage.get(x)?.right;

        // Perform rotation
        self.storage.get_mut(x)?.right = y;
        self.storage.get_mut(y)?.left = t2;
        let ghost s1 = self.storage.slots();
        proof {
            assert(unchanged_except(s, s1, x as int, y as int));
            lemma_agree_except(s, s1, b, t2, x as int, y as int);
            lemma_agree_except(s, s1, c, s[y as int].right, x as int, y as int);
            lemma_frame(s, s1, b, t2);
            lemma_frame(s, s1, c, s[y as int].right);
            lemma_linked_live(s1, b, t2);
            lemma_linked_live(s1, c, s[y as int].right);
            if t2 != NULL_INDEX {
                assert(s1[t2 as int].height == height(b));
            }
            if s[y as int].right != NULL_INDEX {
                assert(s1[s[y as int].right as int].height == height(c));
            }
        }

        // Update heights
        self.update_height(y)?;
        let ghost s3 = self.storage.slots();
        proof {
            assert(unchanged_except(s, s3, x as int, y as int));
            lemma_agree_except(s, s3, a, s[x as int].left, x as int, y as int);
            lemma_frame(s, s3, a, s[x as int].left);
            lemma_linked_live(s3, a, s[x as int].left);
            if s[x as int].left != NULL_INDEX {
                assert(s3[s[x as int].left as int].height == height(a));
            }
            assert(s3[y as int].height == height(bin(b, y, c)));
        }
        self.update_height(x)?;
        proof {
            let s4 = self.storage.slots();
            let t2s = bin(a, x, bin(b, y, c));
            assert(unchanged_except(s, s4, x as int, y as int));
            lemma_agree_except(s, s4, a, s[x as int].left, x as int, y as int);
            lemma_agree_except(s, s4, b, t2, x as int, y as int);
            lemma_agree_except(s, s4, c, s[y as int].right, x as int, y as int);
            lemma_frame(s, s4, a, s[x as int].left);
            lemma_frame(s, s4, b, t2);
            lemma_frame(s, s4, c, s[y as int].right);
            assert(linked(s4, bin(b, y, c), y));
            assert(linked(s4, t2s, x));
            assert(heights_ok(s4, bin(b, y, c)));
            assert(heights_ok(s4, t2s));
            // the digest of y is computed from b and c, which did not move since
            assert(child_digest(s4, t2) == child_digest(s1, t2));
            assert(child_digest(s4, s[y as int].right) == child_digest(s1, s[y as int].right));
            assert(digest_ok(s4, y));
            assert(digest_ok(s4, x));
            if ordered(s, t) {
                lemma_rotate_right_keys(s, s4, a, x, b, y, c);
            }
            if digests_ok(s, a) && digests_ok(s, b) && digests_ok(s, c) {
                assert(digests_ok(s4, bin(b, y, c)));
            }
        }
        Ok(x)
    }

    /// Left rotation at `x`, whose subtree is `bin(a, x, bin(b, y, c))`:
    /// afterwards `y` roots `bin(bin(a, x, b), y, c)`, with fresh heights and
    /// digests at `x` and `y`.
    fn rotate_left(&mut self, x: RawIndex, Ghost(t): Ghost<Shape>) -> (r: Result<RawIndex, SovereignError>)
        requires
            old(self).storage.wf(),
            t is Bin,
            right_of(t) is Bin,
            linked(old(self).storage.slots(), t, x),
            distinct(t),
            heights_ok(old(self).storage.slots(), left_of(t)),
            heights_ok(old(self).storage.slots(), left_of(right_of(t))),
            heights_ok(old(self).storage.slots(), right_of(right_of(t))),
            height(left_of(t)) <= 99,
            height(left_of(right_of(t))) <= 99,
            height(right_of(right_of(t))) <= 99,
        ensures
            ({
                let s = old(self).storage.slots();
                let s2 = final(self).storage.slots();
                let a = left_of(t);
                let y = root_of(right_of(t));
                let b = left_of(right_of(t));
                let c = right_of(right_of(t));
                let t2 = bin(bin(a, x, b), y, c);
                &&& r == Ok::<RawIndex, SovereignError>(y)
                &&& final(self).storage.wf()
                &&& final(self).root == old(self).root
                &&& final(self).shape == old(self).shape
                &&& final(self).storage.free() == old(self).storage.free()
                &&& unchanged_except(s, s2, x as int, y as int)
                &&& same_payload_view(s2[x as int], s[x as int])
                &&& same_payload_view(s2[y as int], s[y as int])
                &&& linked(s2, t2, y)
                &&& distinct(t2)
                &&& ids(t2) == ids(t)
                &&& heights_ok(s2, t2)
                &&& digest_ok(s2, x)
                &&& digest_ok(s2, y)
                &&& (ordered(s, t) ==> ordered(s2, t2) && content(s2, t2) == content(s, t))
                &&& (digests_ok(s, a) && digests_ok(s, b) && digests_ok(s, c) ==> digests_ok(s2, t2))
            }),
    {
        let ghost s = self.storage.slots();
        let ghost a = left_of(t);
        let ghost b = left_of(right_of(t));
        let ghost c = right_of(right_of(t));
        let ghost gy = root_of(right_of(t));
        proof {
            assert(t == bin(a, x, bin(b, gy, c)));
            lemma_distinct_rotation(a, x, b, gy, c);
            assert(linked(s, right_of(t), s[x as int].right));
            lemma_linked_live(s, right_of(t), s[x as int].right);
            lemma_linked_live(s, a, s[x as int].left);
            assert(linked(s, b, s[gy as int].left));
            lemma_linked_live(s, b, s[gy as int].left);
            lemma_linked_live(s, c, s[gy as int].right);
        }
        let y = self.storage.get(x)?.right;
        let t2 = self.storage.get(y)?.left;

        // Perform rotation
        self.storage.get_mut(y)?.left = x;
        self.storage.get_mut(x)?.right = t2;
        let ghost s1 = self.storage.slots();
        proof {
            assert(unchanged_except(s, s1, x as int, y as int));
            lemma_agree_except(s, s1, a, s[x as int].left, x as int, y as int);
            lemma_agree_except(s, s1, b, t2, x as int, y as int);
            lemma_frame(s, s1, a, s[x as int].left);
            lemma_frame(s, s1, b, t2);
            lemma_linked_live(s1, a, s[x as int].left);
            lemma_linked_live(s1, b, t2);
            if t2 != NULL_INDEX {
                assert(s1[t2 as int].height == height(b));
            }
            if s[x as int].left != NULL_INDEX {
                assert(s1[s[x as int].left as int].height == height(a));
            }
        }

        // Update heights
        self.update_height(x)?;
        let ghost s3 = self.storage.slots();
        proof {
            assert(unchanged_except(s, s3, x as int, y as int));
            lemma_agree_except(s, s3, c, s[y as int].right, x as int, y as int);
            lemma_frame(s, s3, c, s[y as int].right);
            lemma_linked_live(s3, c, s[y as int].right);
            if s[y as int].right != NULL_INDEX {
                assert(s3[s[y as int].right as int].height == height(c));
            }
            assert(s3[x as int].height == height(bin(a, x, b)));
        }
        self.update_height(y)?;
        proof {
            let s4 = self.storage.slots();
            let t2s = bin(bin(a, x, b), y, c);
            assert(unchanged_except(s, s4, x as int, y as int));
            lemma_agree_except(s, s4, a, s[x as int].left, x as int, y as int);
            lemma_agree_except(s, s4, b, t2, x as int, y as int);
            lemma_agree_except(s, s4, c, s[y as int].right, x as int, y as int);
            lemma_frame(s, s4, a, s[x as int].left);
            lemma_frame(s, s4, b, t2);
            lemma_frame(s, s4, c, s[y as int].right);
            assert(linked(s4, bin(a, x, b), x));
            assert(linked(s4, t2s, y));
            assert(heights_ok(s4, bin(a, x, b)));
            assert(heights_ok(s4, t2s));
            assert(child_digest(s4, t2) == child_digest(s1, t2));
            assert(child_digest(s4, s[x as int].left) == child_digest(s1, s[x as int].left));
            assert(digest_ok(s4, x));
            assert(digest_ok(s4, y));
            if ordered(s, t) {
                lemma_rotate_left_keys(s, s4, a, x, b, y, c);
            }
            if digests_ok(s, a) && digests_ok(s, b) && digests_ok(s, c) {
                assert(digests_ok(s4, bin(a, x, b)));
            }
        }
        Ok(y)
    }

    fn update_hash(&mut self, id: RawIndex) -> (r: Result<(), SovereignError>)
        requires
            old(self).storage.wf(),
            is_live(old(self).storage.slots(), id),
            child_ok(old(self).storage.slots(), old(self).storage.slots()[id as int].left),
            child_ok(old(self).storage.slots(), old(self).storage.slots()[id as int].right),
        ensures
            r is Ok,
            final(self).storage.wf(),
            final(self).root == old(self).root,
            final(self).shape == old(self).shape,
            final(self).storage.free() == old(self).storage.free(),
            final(self).storage.slots() == old(self).storage.slots().update(
                id as int,
                NodeView {
                    hash: expected_digest(old(self).storage.slots(), id),
                    ..old(self).storage.slots()[id as int]
                },
            ),
    {
        let node = self.storage.get(id)?;
        let left_hash = if node.left != NULL_INDEX {
            Some(self.storage.get(node.left)?.hash)
        } else {
            None
        };
        let right_hash = if node.right != NULL_INDEX {
            Some(self.storage.get(node.right)?.hash)
        } else {
            None
        };
        let hash_val = compute_node_digest(&node.key, &node.value, left_hash, right_hash);
        self.storage.get_mut(id)?.hash = hash_val;
        proof {
            assert(self.storage.slots() =~= old(self).storage.slots().update(
                id as int,
                NodeView {
                    hash: expected_digest(old(self).storage.slots(), id),
                    ..old(self).storage.slots()[id as int]
                },
            ));
        }
        Ok(())
    }

    /// Inserts `key` with `value`. Every node on the way down has its digest
    /// checked before it is used; the first one that fails stops the insertion
    /// with `IntegrityViolation`, with nothing changed. A key that is already
    /// present is refused with `DuplicateKey`; a new key that finds no free
    /// slot is refused with `CapacityExceeded`. The digests of the nodes on the
    /// way back up and of the rotated nodes are recomputed.
    pub fn insert(&mut self, key: Vec<u8>, value: Vec<u8>) -> (r: Result<(), SovereignError>)
        requires
            old(self).wf(),
        ensures
            final(self).wf(),
            match old(self).first_bad_on_path(key@) {
                Some(v) => {
                    &&& r == Err::<(), SovereignError>(SovereignError::IntegrityViolation(v))
                    &&& final(self).same_state(old(self))
                },
                None => match r {
                    Ok(_) => {
                        &&& !old(self)@.contains_key(key@)
                        &&& !old(self).alloc_fails()
                        &&& final(self)@ == old(self)@.insert(key@, value@)
                        &&& final(self).tree_shape() == ins_shape(
                            old(self).slots(),
                            old(self).tree_shape(),
                            key@,
                            old(self).next_slot(),
                        )
                        &&& final(self).slots()[old(self).next_slot() as int].key == key@
                        &&& final(self).slots()[old(self).next_slot() as int].value == value@
                        &&& (old(self).intact() ==> final(self).intact())
                        &&& final(self).slot_count() == if old(self).free_slots().len() > 0 {
                            old(self).slot_count()
                        } else {
                            old(self).slot_count() + 1
                        }
                        &&& final(self).free_slots() == if old(self).free_slots().len() > 0 {
                            old(self).free_slots().drop_last()
                        } else {
                            old(self).free_slots()
                        }
                        &&& forall|j: int| 0 <= j < final(self).free_slots().len() ==> #[trigger] final(self).generation_of(
                            final(self).free_slots()[j] as int,
                        ) == old(self).generation_of(final(self).free_slots()[j] as int)
                        &&& final(self).alloc_fails() ==> old(self).alloc_fails() || final(self).slot_count()
                            >= NULL_INDEX || final(self).next_reuse_generation() == Some(u32::MAX)
                    },
                    Err(e) => {
                        &&& e == SovereignError::DuplicateKey <==> old(self)@.contains_key(key@)
                        &&& e == SovereignError::DuplicateKey ==> final(self).same_state(old(self))
                        &&& e != SovereignError::DuplicateKey ==> {
                            &&& e == SovereignError::CapacityExceeded
                            &&& old(self).alloc_fails()
                            &&& final(self).slot_count() == old(self).slot_count()
                            &&& final(self).free_slots() == if old(self).free_slots().len() > 0 {
                                old(self).free_slots().drop_last()
                            } else {
                                old(self).free_slots()
                            }
                        }
                        &&& final(self)@ == old(self)@
                        &&& final(self).intact() == old(self).intact()
                    },
                },
            },
    {
        proof {
            lemma_height_bound(self.storage.slots(), self.shape@, self.root);
        }
        let ghost s = self.storage.slots();
        let (new_root, Ghost(nt)) = self.recursive_insert(self.root, key, value, Ghost(self.shape@))?;
        self.root = new_root;
        self.shape = Ghost(nt);
        proof {
            let s2 = self.storage.slots();
            lemma_linked_live(s2, nt, new_root);
            assert forall|i: int| 0 <= i < s2.len() implies (#[trigger] s2[i].is_active
                <==> ids(nt).contains(i)) by {
                if !ids(nt).contains(i) {
                    assert(i < s.len());
                    assert(s2[i] == s[i]);
                }
            }
            let f = old(self).storage.free();
            assert forall|j: int| 0 <= j < self.free_slots().len() implies #[trigger] self.generation_of(
                self.free_slots()[j] as int,
            ) == old(self).generation_of(self.free_slots()[j] as int) by {
                let x = self.free_slots()[j] as int;
                assert(f[j] == x);
                assert(x < s.len() && !s[x].is_active);
                assert(f.no_duplicates());
                assert(!ids(nt).contains(x));
            }
        }
        Ok(())
    }

    #[verifier::spinoff_prover]
    #[verifier::rlimit(100)]
    fn recursive_insert(&mut self, id: RawIndex, key: Vec<u8>, value: Vec<u8>, Ghost(t): Ghost<Shape>)
        -> (r: Result<(RawIndex, Ghost<Shape>), SovereignError>)
        requires
            old(self).storage.wf(),
            sound(old(self).storage.slots(), t, id),
            height(t) <= 90,
        ensures
            final(self).storage.wf(),
            final(self).root == old(self).root,
            final(self).shape == old(self).shape,
            ({
                let s = old(self).storage.slots();
                let s2 = final(self).storage.slots();
                let slot = old(self).storage.next_slot() as int;
                match r {
                    Ok((nid, nt)) => {
                        &&& path_violation(s, t, key@) is None
                        &&& !content(s, t).contains_key(key@)
                        &&& !old(self).storage.alloc_fails()
                        &&& insert_post(s, t, s2, nt@, nid, key@, value@, slot)
                        &&& nt@ == ins_shape(s, t, key@, slot as RawIndex)
                        &&& payload_kept(s, s2, ids(t))
                        &&& s2[slot].key == key@
                        &&& s2[slot].value == value@
                        &&& s2.len() == if old(self).storage.free().len() > 0 { s.len() } else { s.len() + 1 }
                        &&& final(self).storage.free() == old(self).storage.free_after_alloc()
                    },
                    Err(e) => {
                        &&& s2 == s
                        &&& match path_violation(s, t, key@) {
                            Some(v) => e == SovereignError::IntegrityViolation(v)
                                && final(self).storage.free() == old(self).storage.free(),
                            None => {
                                &&& (e == SovereignError::DuplicateKey) == content(s, t).contains_key(key@)
                                &&& e != SovereignError::DuplicateKey ==> e == SovereignError::CapacityExceeded
                                    && old(self).storage.alloc_fails()
                                    && final(self).storage.free() == old(self).storage.free_after_alloc()
                                &&& e == SovereignError::DuplicateKey ==> final(self).storage.free()
                                    == old(self).storage.free()
                            },
                        }
                    },
                }
            }),
        decreases t,
    {
        let ghost s = self.storage.slots();
        proof {
            lemma_linked_live(s, t, id);
        }
        if id == NULL_INDEX {
            let nid = self.storage.allocate(key, value)?;
            let ghost sa = self.storage.slots();
            proof {
                if old(self).storage.free().len() > 0 {
                    let j = old(self).storage.free().len() - 1;
                    assert(old(self).storage.free()[j] < s.len());
                }
                assert(sa[nid as int] == crate::storage::fresh_node(key@, value@, sa[nid as int].generation));
            }
            self.update_hash(nid)?;
            let ghost nt = bin(Shape::Nil, nid, Shape::Nil);
            proof {
                let s2 = self.storage.slots();
                assert(child_digest(s2, NULL_INDEX) == child_digest(sa, NULL_INDEX));
                assert(digest_ok(s2, nid));
                assert(nid != NULL_INDEX);
                assert(nid < s2.len());
                assert(s2[nid as int].is_active);
                assert(s2[nid as int].left == NULL_INDEX);
                assert(linked(s2, Shape::Nil, NULL_INDEX));
                assert(linked(s2, nt, nid));
                assert(ids(nt) =~= ids(t).insert(nid as int));
                assert(t is Nil);
                assert(content(s, t) == Map::<Seq<u8>, Seq<u8>>::empty());
                assert(content(s2, Shape::Nil) == Map::<Seq<u8>, Seq<u8>>::empty());
                assert(content(s2, nt) =~= content(s, t).insert(key@, value@));
                assert(heights_ok(s2, Shape::Nil));
                assert(digests_ok(s2, Shape::Nil));
                assert(ordered(s2, Shape::Nil));
                assert(balanced(Shape::Nil));
                assert(distinct(Shape::Nil));
                assert(height(Shape::Nil) == 0);
                assert(heights_ok(s2, nt));
                assert(digests_ok(s2, nt));
            }
            return Ok((nid, Ghost(nt)));
        }
        let ghost l = left_of(t);
        let ghost rt = right_of(t);
        let ghost slot = old(self).storage.next_slot() as int;
        proof {
            assert(t == bin(l, id, rt));
            lemma_root_in_ids(t);
            assert(linked(s, l, s[id as int].left));
            assert(linked(s, rt, s[id as int].right));
            assert(sound(s, l, s[id as int].left));
            assert(sound(s, rt, s[id as int].right));
            // the slot handed out next is not part of the tree
            if old(self).storage.free().len() > 0 {
                let j = old(self).storage.free().len() - 1;
                assert(old(self).storage.free()[j] < s.len());
            }
            assert(!ids(t).contains(slot));
            lemma_linked_live(s, l, s[id as int].left);
            lemma_linked_live(s, rt, s[id as int].right);
        }
        self.check_digest(id)?;
        let current_key = copy_bytes(&self.storage.get(id)?.key);
        let ghost mut ct: Shape = t;
        let order = compare_keys(&key, &current_key);
        if order == KeyOrder::Less {
            let left = self.storage.get(id)?.left;
            let res = self.recursive_insert(left, copy_bytes(&key), value, Ghost(l));
            proof {
                lemma_content_side(s, t, key@);
            }
            let (new_left, Ghost(nl)) = match res {
                Ok(p) => p,
                Err(e) => {
                    return Err(e);
                },
            };
            let ghost s1 = self.storage.slots();
            self.storage.get_mut(id)?.left = new_left;
            let ghost s2 = self.storage.slots();
            proof {
                assert(s1[id as int] == s[id as int]);
                lemma_linked_live(s1, nl, new_left);
                lemma_linked_live(s, rt, s[id as int].right);
                assert(!ids(nl).contains(id as int));
                if s[id as int].right != NULL_INDEX {
                    lemma_root_in_ids(rt);
                    assert(s1[s[id as int].right as int] == s[s[id as int].right as int]);
                }
                if new_left != NULL_INDEX {
                    assert(s2[new_left as int] == s1[new_left as int]);
                }
            }
            self.update_height(id)?;
            proof {
                let s3 = self.storage.slots();
                assert(child_digest(s3, new_left) == child_digest(s2, new_left));
                assert(child_digest(s3, s[id as int].right) == child_digest(s2, s[id as int].right));
                assert(digest_ok(s3, id));
                lemma_attach_left(s, t, s1, nl, new_left, key@, value@, slot, s3);
                ct = bin(nl, id, rt);
                if nl is Bin {
                    lemma_root_in_ids(nl);
                    assert(s3[root_of(nl) as int] == s1[root_of(nl) as int]);
                }
                assert(insert_mid(s, t, s3, ct, key@, value@, slot));
            }
        } else if order == KeyOrder::Greater {
            let right = self.storage.get(id)?.right;
            let res = self.recursive_insert(right, copy_bytes(&key), value, Ghost(rt));
            proof {
                lemma_content_side(s, t, key@);
            }
            let (new_right, Ghost(nr)) = match res {
                Ok(p) => p,
                Err(e) => {
                    return Err(e);
                },
            };
            let ghost s1 = self.storage.slots();
            self.storage.get_mut(id)?.right = new_right;
            let ghost s2 = self.storage.slots();
            proof {
                assert(s1[id as int] == s[id as int]);
                lemma_linked_live(s1, nr, new_right);
                lemma_linked_live(s, l, s[id as int].left);
                assert(!ids(nr).contains(id as int));
                if s[id as int].left != NULL_INDEX {
                    lemma_root_in_ids(l);
                    assert(s1[s[id as int].left as int] == s[s[id as int].left as int]);
                }
                if new_right != NULL_INDEX {
                    assert(s2[new_right as int] == s1[new_right as int]);
                }
            }
            self.update_height(id)?;
            proof {
                let s3 = self.storage.slots();
                assert(child_digest(s3, new_right) == child_digest(s2, new_right));
                assert(child_digest(s3, s[id as int].left) == child_digest(s2, s[id as int].left));
                assert(digest_ok(s3, id));
                lemma_attach_right(s, t, s1, nr, new_right, key@, value@, slot, s3);
                ct = bin(l, id, nr);
                if nr is Bin {
                    lemma_root_in_ids(nr);
                    assert(s3[root_of(nr) as int] == s1[root_of(nr) as int]);
                }
                assert(insert_mid(s, t, s3, ct, key@, value@, slot));
            }
        } else {
            proof {
                assert(content(s, t).contains_key(key@));
            }
            return Err(SovereignError::DuplicateKey);
        }
        let ghost s3 = self.storage.slots();
        proof {
            assert(insert_mid(s, t, s3, ct, key@, value@, slot));
        }
        let balance = self.get_balance(id)?;
        let ghost lc = left_of(ct);
        let ghost rc = right_of(ct);
        proof {
            assert(ct == bin(lc, id, rc));
            assert(linked(s3, lc, s3[id as int].left));
            assert(linked(s3, rc, s3[id as int].right));
            lemma_linked_live(s3, lc, s3[id as int].left);
            lemma_linked_live(s3, rc, s3[id as int].right);
            assert(heights_ok(s3, lc));
            assert(heights_ok(s3, rc));
            assert(balance == height(lc) - height(rc));
        }

        // LL Case
        if balance > 1 && compare_keys(&key, &self.storage.get(self.storage.get(id)?.left)?.key) == KeyOrder::Less {
            proof {
                assert(lc is Bin);
                assert(key_lt(key@, s3[root_of(lc) as int].key));
                lemma_key_order_all();
                assert(height(lc) == height(left_of(lc)) + 1);
                assert(distinct(lc));
                assert(heights_ok(s3, left_of(lc)));
                assert(heights_ok(s3, right_of(lc)));
            }
            let x = self.rotate_right(id, Ghost(ct))?;
            let ghost t2 = bin(left_of(lc), x, bin(right_of(lc), id, rc));
            proof {
                let s4 = self.storage.slots();
                lemma_root_in_ids(ct);
                lemma_root_in_ids(lc);
                lemma_key_order_all();
                assert(balanced(lc));
                assert(balanced(left_of(lc)));
                assert(balanced(right_of(lc)));
                assert(height(left_of(lc)) == height(rc) + 1);
                assert(height(right_of(lc)) == height(rc));
                assert(balanced(bin(right_of(lc), id, rc)));
                assert(balanced(t2));
                assert(digests_ok(s, t) ==> digests_ok(s3, lc) && digests_ok(s3, left_of(lc)) && digests_ok(s3, right_of(lc)));
                assert(frame_outside(s, s4, ids(t2)));
            }
            return Ok((x, Ghost(t2)));
        }

        // RR Case
        if balance < -1 && compare_keys(&key, &self.storage.get(self.storage.get(id)?.right)?.key) == KeyOrder::Greater {
            proof {
                assert(rc is Bin);
                assert(key_lt(s3[root_of(rc) as int].key, key@));
                lemma_key_order_all();
                assert(height(rc) == height(right_of(rc)) + 1);
                assert(distinct(rc));
                assert(heights_ok(s3, left_of(rc)));
                assert(heights_ok(s3, right_of(rc)));
            }
            let y = self.rotate_left(id, Ghost(ct))?;
            let ghost t2 = bin(bin(lc, id, left_of(rc)), y, right_of(rc));
            proof {
                let s4 = self.storage.slots();
                lemma_root_in_ids(ct);
                lemma_root_in_ids(rc);
                lemma_key_order_all();
                assert(balanced(rc));
                assert(balanced(left_of(rc)));
                assert(balanced(right_of(rc)));
                assert(height(right_of(rc)) == height(lc) + 1);
                assert(height(left_of(rc)) == height(lc));
                assert(balanced(bin(lc, id, left_of(rc))));
                assert(balanced(t2));
                assert(digests_ok(s, t) ==> digests_ok(s3, rc) && digests_ok(s3, left_of(rc)) && digests_ok(s3, right_of(rc)));
                assert(frame_outside(s, s4, ids(t2)));
            }
            return Ok((y, Ghost(t2)));
        }

        // LR Case
        if balance > 1 && compare_keys(&key, &self.storage.get(self.storage.get(id)?.left)?.key) == KeyOrder::Greater {
            let ghost a = left_of(lc);
            let ghost m = right_of(lc);
            proof {
                assert(lc is Bin);
                assert(key_lt(s3[root_of(lc) as int].key, key@));
                lemma_key_order_all();
                assert(height(m) == height(a) + 1);
                assert(m is Bin);
                assert(distinct(lc));
                assert(heights_ok(s3, a));
                assert(heights_ok(s3, m));
                assert(heights_ok(s3, left_of(m)));
                assert(heights_ok(s3, right_of(m)));
                assert(balanced(lc));
                assert(balanced(m));
            }
            let left = self.storage.get(id)?.left;
            let z = self.rotate_left(left, Ghost(lc))?;
            let ghost s4 = self.storage.slots();
            let ghost lc2 = bin(bin(a, root_of(lc), left_of(m)), z, right_of(m));
            self.storage.get_mut(id)?.left = z;
            let ghost s5 = self.storage.slots();
            proof {
                lemma_root_in_ids(ct);
                lemma_root_in_ids(lc);
                lemma_root_in_ids(m);
                assert(!ids(lc).contains(id as int));
                assert(!ids(rc).contains(root_of(lc) as int));
                assert(!ids(rc).contains(z as int));
                assert(s4[id as int] == s3[id as int]);
                lemma_linked_live(s4, lc2, z);
                assert(agree_on(s4, s5, lc2));
                lemma_frame(s4, s5, lc2, z);
                assert(agree_on(s3, s5, rc));
                lemma_frame(s3, s5, rc, s3[id as int].right);
                assert(linked(s5, bin(lc2, id, rc), id));
                assert(distinct(bin(lc2, id, rc)));
                assert(heights_ok(s4, bin(a, root_of(lc), left_of(m))));
                assert(heights_ok(s4, right_of(m)));
                lemma_linked_live(s4, bin(a, root_of(lc), left_of(m)), s4[z as int].left);
                lemma_frame(s4, s5, bin(a, root_of(lc), left_of(m)), s4[z as int].left);
                lemma_linked_live(s4, right_of(m), s4[z as int].right);
                lemma_frame(s4, s5, right_of(m), s4[z as int].right);
            }
            let x = self.rotate_right(id, Ghost(bin(lc2, id, rc)))?;
            let ghost t2 = bin(bin(a, root_of(lc), left_of(m)), z, bin(right_of(m), id, rc));
            proof {
                let s6 = self.storage.slots();
                assert(x == z);
                assert(balanced(left_of(m)));
                assert(balanced(right_of(m)));
                assert(height(m) == height(rc) + 1);
                assert(balanced(bin(a, root_of(lc), left_of(m))));
                assert(balanced(bin(right_of(m), id, rc)));
                assert(balanced(t2));
                // the pairs and the order survive both rotations
                assert(ordered(s3, lc));
                assert(ordered(s4, lc2));
                assert(content(s5, lc2) == content(s3, lc));
                assert(content(s5, rc) == content(s3, rc));
                assert(ordered(s5, bin(lc2, id, rc)));
                assert(content(s5, bin(lc2, id, rc)) == content(s3, ct));
                if digests_ok(s, t) {
                    assert(digests_ok(s3, lc));
                    assert(digests_ok(s3, m));
                    assert(digests_ok(s4, lc2));
                    assert(digests_ok(s5, bin(a, root_of(lc), left_of(m))));
                    assert(digests_ok(s5, right_of(m)));
                    assert(digests_ok(s5, rc));
                    assert(digests_ok(s6, t2));
                }
                assert(frame_outside(s, s6, ids(t2)));
            }
            return Ok((x, Ghost(t2)));
        }

        // RL Case
        if balance < -1 && compare_keys(&key, &self.storage.get(self.storage.get(id)?.right)?.key) == KeyOrder::Less {
            let ghost c = right_of(rc);
            let ghost m = left_of(rc);
            proof {
                assert(rc is Bin);
                assert(key_lt(key@, s3[root_of(rc) as int].key));
                lemma_key_order_all();
                assert(height(m) == height(c) + 1);
                assert(m is Bin);
                assert(distinct(rc));
                assert(heights_ok(s3, c));
                assert(heights_ok(s3, m));
                assert(heights_ok(s3, left_of(m)));
                assert(heights_ok(s3, right_of(m)));
                assert(balanced(rc));
                assert(balanced(m));
            }
            let right = self.storage.get(id)?.right;
            let z = self.rotate_right(right, Ghost(rc))?;
            let ghost s4 = self.storage.slots();
            let ghost rc2 = bin(left_of(m), z, bin(right_of(m), root_of(rc), c));
            self.storage.get_mut(id)?.right = z;
            let ghost s5 = self.storage.slots();
            proof {
                lemma_root_in_ids(ct);
                lemma_root_in_ids(rc);
                lemma_root_in_ids(m);
                assert(!ids(rc).contains(id as int));
                assert(!ids(lc).contains(root_of(rc) as int));
                assert(!ids(lc).contains(z as int));
                assert(s4[id as int] == s3[id as int]);
                lemma_linked_live(s4, rc2, z);
                assert(agree_on(s4, s5, rc2));
                lemma_frame(s4, s5, rc2, z);
                assert(agree_on(s3, s5, lc));
                lemma_frame(s3, s5, lc, s3[id as int].left);
                assert(linked(s5, bin(lc, id, rc2), id));
                assert(distinct(bin(lc, id, rc2)));
                assert(heights_ok(s4, bin(right_of(m), root_of(rc), c)));
                assert(heights_ok(s4, left_of(m)));
                lemma_linked_live(s4, bin(right_of(m), root_of(rc), c), s4[z as int].right);
                lemma_frame(s4, s5, bin(right_of(m), root_of(rc), c), s4[z as int].right);
                lemma_linked_live(s4, left_of(m), s4[z as int].left);
                lemma_frame(s4, s5, left_of(m), s4[z as int].left);
            }
            let y = self.rotate_left(id, Ghost(bin(lc, id, rc2)))?;
            let ghost t2 = bin(bin(lc, id, left_of(m)), z, bin(right_of(m), root_of(rc), c));
            proof {
                let s6 = self.storage.slots();
                assert(y == z);
                assert(balanced(left_of(m)));
                assert(balanced(right_of(m)));
                assert(height(m) == height(lc) + 1);
                assert(balanced(bin(right_of(m), root_of(rc), c)));
                assert(balanced(bin(lc, id, left_of(m))));
                assert(balanced(t2));
                assert(ordered(s3, rc));
                assert(ordered(s4, rc2));
                assert(content(s5, rc2) == content(s3, rc));
                assert(content(s5, lc) == content(s3, lc));
                assert(ordered(s5, bin(lc, id, rc2)));
                assert(content(s5, bin(lc, id, rc2)) == content(s3, ct));
                if digests_ok(s, t) {
                    assert(digests_ok(s3, rc));
                    assert(digests_ok(s3, m));
                    assert(digests_ok(s4, rc2));
                    assert(digests_ok(s5, bin(right_of(m), root_of(rc), c)));
                    assert(digests_ok(s5, left_of(m)));
                    assert(digests_ok(s5, lc));
                    assert(digests_ok(s6, t2));
                }
                assert(frame_outside(s, s6, ids(t2)));
            }
            return Ok((y, Ghost(t2)));
        }

        proof {
            lemma_key_order_all();
            assert(balanced(ct));
            assert(sound(s3, ct, id));
        }
        Ok((id, Ghost(ct)))
    }

    /// Looks `key` up. Every node visited on the way down has its digest
    /// checked first; the first one that fails stops the search with
    /// `IntegrityViolation`.
    pub fn get(&self, key: &Vec<u8>) -> (r: Result<Option<Vec<u8>>, SovereignError>)
        requires
            self.wf(),
        ensures
            match self.first_bad_on_path(key@) {
                Some(id) => r == Err::<Option<Vec<u8>>, SovereignError>(SovereignError::IntegrityViolation(id)),
                None => match r {
                    Ok(Some(v)) => self@.contains_key(key@) && v@ == self@[key@],
                    Ok(None) => !self@.contains_key(key@),
                    Err(_) => false,
                },
            },
    {
        self.recursive_get(self.root, key, Ghost(self.shape@))
    }

    fn recursive_get(&self, id: RawIndex, key: &Vec<u8>, Ghost(t): Ghost<Shape>) -> (r: Result<
        Option<Vec<u8>>,
        SovereignError,
    >)
        requires
            self.wf(),
            linked(self.slots(), t, id),
            ordered(self.slots(), t),
            ids(t).subset_of(ids(self.shape@)),
        ensures
            match path_violation(self.slots(), t, key@) {
                Some(v) => r == Err::<Option<Vec<u8>>, SovereignError>(SovereignError::IntegrityViolation(v)),
                None => match r {
                    Ok(Some(v)) => content(self.slots(), t).contains_key(key@) && v@ == content(
                        self.slots(),
                        t,
                    )[key@],
                    Ok(None) => !content(self.slots(), t).contains_key(key@),
                    Err(_) => false,
                },
            },
        decreases t,
    {
        let ghost s = self.slots();
        proof {
            lemma_linked_live(s, t, id);
        }
        if id == NULL_INDEX {
            return Ok(None);
        }
        proof {
            lemma_root_in_ids(t);
            assert(linked(s, left_of(t), s[id as int].left));
            assert(linked(s, right_of(t), s[id as int].right));
            lemma_content_side(s, t, key@);
        }

        // Every node visited on the way down has its digest checked first.
        self.verify_integrity(id)?;

        let node = self.storage.get(id)?;
        let order = compare_keys(key, &node.key);
        if order == KeyOrder::Less {
            self.recursive_get(node.left, key, Ghost(left_of(t)))
        } else if order == KeyOrder::Greater {
            self.recursive_get(node.right, key, Ghost(right_of(t)))
        } else {
            Ok(Some(copy_bytes(&node.value)))
        }
    }

    /// Removes `key` and its value, if present; a missing key leaves the tree
    /// as it is. Every node read on the way down (and, for a node with two
    /// children, on the way to its successor) has its digest checked first;
    /// the first one that fails stops the deletion, with nothing changed.
    /// The digests of changed and rotated nodes are recomputed.
    pub fn delete(&mut self, key: &Vec<u8>) -> (r: Result<(), SovereignError>)
        requires
            old(self).wf(),
        ensures
            final(self).wf(),
            match old(self).first_bad_for_delete(key@) {
                Some(v) => {
                    &&& r == Err::<(), SovereignError>(SovereignError::IntegrityViolation(v))
                    &&& final(self).same_state(old(self))
                },
                None => {
                    &&& r is Ok
                    &&& final(self)@ == old(self)@.remove(key@)
                    &&& final(self).tree_shape() == del_shape(old(self).slots(), old(self).tree_shape(), key@)
                    &&& (old(self).intact() ==> final(self).intact())
                    &&& (!old(self)@.contains_key(key@) ==> final(self).same_state(old(self)))
                    &&& (old(self)@.contains_key(key@) ==> {
                        &&& final(self).free_slots().len() == old(self).free_slots().len() + 1
                        &&& final(self).free_slots().drop_last() == old(self).free_slots()
                        &&& old(self).slot_live(final(self).free_slots().last() as int)
                        &&& !final(self).slot_live(final(self).free_slots().last() as int)
                        &&& final(self).generation_of(final(self).free_slots().last() as int)
                            == old(self).generation_of(final(self).free_slots().last() as int)
                    })
                    &&& final(self).slot_count() == old(self).slot_count()
                    &&& forall|j: int| 0 <= j < old(self).free_slots().len() ==> #[trigger] final(self).generation_of(
                        old(self).free_slots()[j] as int,
                    ) == old(self).generation_of(old(self).free_slots()[j] as int)
                    &&& (final(self).alloc_fails() ==> old(self).alloc_fails() || final(self).slot_count()
                        >= NULL_INDEX || final(self).next_reuse_generation() == Some(u32::MAX))
                },
            },
    {
        proof {
            lemma_height_bound(self.storage.slots(), self.shape@, self.root);
        }
        let ghost s = self.storage.slots();
        let (new_root, Ghost(nt), Ghost(d)) = self.recursive_delete(self.root, key, Ghost(self.shape@))?;
        self.root = new_root;
        self.shape = Ghost(nt);
        proof {
            let s2 = self.storage.slots();
            lemma_linked_live(s2, nt, new_root);
            assert forall|i: int| 0 <= i < s2.len() implies (#[trigger] s2[i].is_active
                <==> ids(nt).contains(i)) by {
                if !ids(nt).contains(i) && i != d {
                    assert(s2[i] == s[i]);
                }
            }
            let f = old(self).storage.free();
            assert forall|j: int| 0 <= j < f.len() implies #[trigger] self.generation_of(f[j] as int)
                == old(self).generation_of(f[j] as int) by {
                assert(f[j] < s.len() && !s[f[j] as int].is_active);
                assert(!ids(old(self).shape@).contains(f[j] as int));
            }
            if content(s, old(self).shape@).contains_key(key@) {
                assert(self.storage.free().drop_last() =~= f);
            }
        }
        Ok(())
    }

    #[verifier::spinoff_prover]
    #[verifier::rlimit(100)]
    fn recursive_delete(&mut self, id: RawIndex, key: &Vec<u8>, Ghost(t): Ghost<Shape>) -> (r: Result<
        (RawIndex, Ghost<Shape>, Ghost<int>),
        SovereignError,
    >)
        requires
            old(self).storage.wf(),
            sound(old(self).storage.slots(), t, id),
            height(t) <= 64,
        ensures
            final(self).storage.wf(),
            final(self).root == old(self).root,
            final(self).shape == old(self).shape,
            match delete_violation(old(self).storage.slots(), t, key@) {
                Some(v) => {
                    &&& r == Err::<(RawIndex, Ghost<Shape>, Ghost<int>), SovereignError>(
                        SovereignError::IntegrityViolation(v),
                    )
                    &&& final(self).storage.slots() == old(self).storage.slots()
                    &&& final(self).storage.free() == old(self).storage.free()
                },
                None => match r {
                    Ok((nid, nt, d)) => {
                        &&& delete_post(old(self).storage.slots(), t, final(self).storage.slots(), nt@, nid, key@, d@)
                        &&& nt@ == del_shape(old(self).storage.slots(), t, key@)
                        &&& final(self).storage.free() == if content(old(self).storage.slots(), t).contains_key(key@) {
                            old(self).storage.free().push(d@ as RawIndex)
                        } else {
                            old(self).storage.free()
                        }
                        &&& !content(old(self).storage.slots(), t).contains_key(key@) ==> nid == id && nt@ == t
                            && final(self).storage.slots() == old(self).storage.slots()
                        &&& content(old(self).storage.slots(), t).contains_key(key@) ==> final(self).storage.slots()[d@].generation
                            == old(self).storage.slots()[d@].generation
                    },
                    Err(_) => false,
                },
            },
        decreases t,
    {
        let ghost s = self.storage.slots();
        proof {
            lemma_linked_live(s, t, id);
        }
        if id == NULL_INDEX {
            proof {
                assert(content(s, t) == Map::<Seq<u8>, Seq<u8>>::empty());
                assert(content(s, t).remove(key@) =~= content(s, t));
            }
            return Ok((NULL_INDEX, Ghost(Shape::Nil), Ghost(0)));
        }
        let ghost l = left_of(t);
        let ghost rt = right_of(t);
        proof {
            assert(t == bin(l, id, rt));
            lemma_root_in_ids(t);
            assert(linked(s, l, s[id as int].left));
            assert(linked(s, rt, s[id as int].right));
            assert(sound(s, l, s[id as int].left));
            assert(sound(s, rt, s[id as int].right));
            lemma_linked_live(s, l, s[id as int].left);
            lemma_linked_live(s, rt, s[id as int].right);
            lemma_content_side(s, t, key@);
        }

        let current_id = id;
        self.check_digest(current_id)?;
        let node_key = copy_bytes(&self.storage.get(current_id)?.key);
        let ghost mut ct: Shape = t;
        let ghost mut d: int = 0;
        let order = compare_keys(key, &node_key);
        if order == KeyOrder::Less {
            let left = self.storage.get(current_id)?.left;
            let (new_left, Ghost(nl), Ghost(dl)) = self.recursive_delete(left, key, Ghost(l))?;
            let ghost s1 = self.storage.slots();
            self.storage.get_mut(current_id)?.left = new_left;
            let ghost s2 = self.storage.slots();
            proof {
                assert(s1[id as int] == s[id as int]);
                lemma_linked_live(s1, nl, new_left);
                if s[id as int].right != NULL_INDEX {
                    lemma_root_in_ids(rt);
                    assert(s1[s[id as int].right as int] == s[s[id as int].right as int]);
                }
                if new_left != NULL_INDEX {
                    assert(s2[new_left as int] == s1[new_left as int]);
                }
            }
            self.update_height(current_id)?;
            proof {
                let s3 = self.storage.slots();
                assert(child_digest(s3, new_left) == child_digest(s2, new_left));
                assert(child_digest(s3, s[id as int].right) == child_digest(s2, s[id as int].right));
                assert(digest_ok(s3, id));
                lemma_attach_del_left(s, t, s1, nl, new_left, key@, dl, s3);
                ct = bin(nl, id, rt);
                d = dl;
                if content(s, t).contains_key(key@) {
                    assert(ids(l).contains(dl));
                    assert(s3[dl] == s1[dl]);
                }
                if !content(s, t).contains_key(key@) {
                    assert(s1 == s);
                    assert(s2 =~= s);
                    lemma_stored_height(s, l, s[id as int].left);
                    lemma_stored_height(s, rt, s[id as int].right);
                    assert(s3[id as int] == s[id as int]);
                    assert(s3 =~= s);
                }
            }
        } else if order == KeyOrder::Greater {
            let right = self.storage.get(current_id)?.right;
            let (new_right, Ghost(nr), Ghost(dr)) = self.recursive_delete(right, key, Ghost(rt))?;
            let ghost s1 = self.storage.slots();
            self.storage.get_mut(current_id)?.right = new_right;
            let ghost s2 = self.storage.slots();
            proof {
                assert(s1[id as int] == s[id as int]);
                lemma_linked_live(s1, nr, new_right);
                if s[id as int].left != NULL_INDEX {
                    lemma_root_in_ids(l);
                    assert(s1[s[id as int].left as int] == s[s[id as int].left as int]);
                }
                if new_right != NULL_INDEX {
                    assert(s2[new_right as int] == s1[new_right as int]);
                }
            }
            self.update_height(current_id)?;
            proof {
                let s3 = self.storage.slots();
                assert(child_digest(s3, new_right) == child_digest(s2, new_right));
                assert(child_digest(s3, s[id as int].left) == child_digest(s2, s[id as int].left));
                assert(digest_ok(s3, id));
                assert(agree_on(s, s, rt));
                lemma_attach_del_right(s, t, s, s1, nr, new_right, key@, key@, dr, s3);
                ct = bin(l, id, nr);
                d = dr;
                if content(s, t).contains_key(key@) {
                    assert(ids(rt).contains(dr));
                    assert(s3[dr] == s1[dr]);
                }
                if !content(s, t).contains_key(key@) {
                    assert(s1 == s);
                    assert(s2 =~= s);
                    lemma_stored_height(s, l, s[id as int].left);
                    lemma_stored_height(s, rt, s[id as int].right);
                    assert(s3[id as int] == s[id as int]);
                    assert(s3 =~= s);
                }
            }
        } else {
            // Node found
            let left = self.storage.get(current_id)?.left;
            let right = self.storage.get(current_id)?.right;

            if left == NULL_INDEX || right == NULL_INDEX {
                let temp = if left != NULL_INDEX { left } else { right };
                let ghost child = if left != NULL_INDEX { l } else { rt };
                proof {
                    assert(key@ == s[id as int].key);
                    assert(content(s, t).contains_key(key@));
                    assert(l is Nil || rt is Nil);
                    assert(linked(s, child, temp));
                }
                if temp == NULL_INDEX {
                    // No child case
                    self.storage.deallocate(current_id)?;
                    proof {
                        let s2 = self.storage.slots();
                        assert(child is Nil);
                        assert(l is Nil && rt is Nil);
                        assert(content(s, l) == Map::<Seq<u8>, Seq<u8>>::empty());
                        assert(content(s, rt) == Map::<Seq<u8>, Seq<u8>>::empty());
                        assert(content(s2, Shape::Nil) =~= content(s, t).remove(key@));
                        assert(ids(l) =~= Set::<int>::empty());
                        assert(ids(rt) =~= Set::<int>::empty());
                        assert(ids(Shape::Nil) =~= ids(t).remove(id as int));
                        assert(sound(s2, Shape::Nil, NULL_INDEX));
                    }
                    return Ok((NULL_INDEX, Ghost(Shape::Nil), Ghost(id as int)));
                } else {
                    // One child case
                    self.storage.deallocate(current_id)?;
                    proof {
                        let s2 = self.storage.slots();
                        let other = if left != NULL_INDEX { rt } else { l };
                        assert(other is Nil);
                        assert(content(s, other) == Map::<Seq<u8>, Seq<u8>>::empty());
                        assert(ids(other) =~= Set::<int>::empty());
                        assert(!ids(child).contains(id as int));
                        lemma_linked_live(s, child, temp);
                        assert(agree_on(s, s2, child));
                        lemma_frame(s, s2, child, temp);
                        assert(sound(s, child, temp));
                        assert(content(s, child) =~= content(s, t).remove(key@)) by {
                            lemma_key_order_all();
                            if left != NULL_INDEX {
                                assert(content(s, t) == content(s, l).insert(s[id as int].key, s[id as int].value));
                                assert(!content(s, l).contains_key(key@));
                            } else {
                                assert(content(s, t) == content(s, l).union_prefer_right(content(s, rt)).insert(s[id as int].key, s[id as int].value));
                                assert(content(s, l).union_prefer_right(content(s, rt)) =~= content(s, rt));
                                assert(!content(s, rt).contains_key(key@));
                            }
                        }
                        assert(ids(child) =~= ids(t).remove(id as int));
                        if digests_ok(s, t) {
                            assert(digests_ok(s, child));
                        }
                    }
                    return Ok((temp, Ghost(child), Ghost(id as int)));
                }
            } else {
                // Two children case: Get successor
                proof {
                    assert(rt is Bin);
                    lemma_leftmost_min(s, rt, right);
                }
                let successor_id = self.get_min_node(right, Ghost(rt))?;
                let successor_key = copy_bytes(&self.storage.get(successor_id)?.key);
                let successor_val = copy_bytes(&self.storage.get(successor_id)?.value);

                // Swap data
                self.storage.get_mut(current_id)?.key = copy_bytes(&successor_key);
                self.storage.get_mut(current_id)?.value = successor_val;
                let ghost s0 = self.storage.slots();
                proof {
                    assert(!ids(rt).contains(id as int));
                    assert(agree_on(s, s0, rt));
                    lemma_frame(s, s0, rt, right);
                    assert(sound(s0, rt, right));
                    lemma_frame_spine(s, s0, rt, right);
                    assert(ids(rt).contains(leftmost(rt) as int));
                    lemma_min_delete_reads_spine(s0, rt, right);
                    lemma_frame_del_shape(s, s0, rt, s[leftmost(rt) as int].key);
                }

                // Delete successor
                let (new_right, Ghost(nr), Ghost(dr)) = self.recursive_delete(right, &successor_key, Ghost(rt))?;
                let ghost s1 = self.storage.slots();
                self.storage.get_mut(current_id)?.right = new_right;
                let ghost s2 = self.storage.slots();
                proof {
                    assert(s1[id as int] == s0[id as int]);
                    lemma_linked_live(s1, nr, new_right);
                    if left != NULL_INDEX {
                        lemma_root_in_ids(l);
                        assert(s1[left as int] == s[left as int]);
                    }
                    if new_right != NULL_INDEX {
                        assert(s2[new_right as int] == s1[new_right as int]);
                    }
                }
                self.update_height(current_id)?;
                proof {
                    let s3 = self.storage.slots();
                    assert(child_digest(s3, new_right) == child_digest(s2, new_right));
                    assert(child_digest(s3, left) == child_digest(s2, left));
                    assert(digest_ok(s3, id));
                    lemma_attach_del_right(s, t, s0, s1, nr, new_right, key@, successor_key@, dr, s3);
                    ct = bin(l, id, nr);
                    d = dr;
                    assert(ids(rt).contains(dr));
                    assert(s3[dr] == s1[dr]);
                    assert(s0[dr] == s[dr]);
                }
            }
        }
        let ghost s3 = self.storage.slots();
        proof {
            assert(delete_mid(s, t, s3, ct, key@, d));
        }

        let (nid, Ghost(nt)) = self.rebalance_after_delete(current_id, Ghost(ct))?;
        proof {
            let s4 = self.storage.slots();
            assert(balanced(l) && balanced(rt));
            lemma_root_in_ids(ct);
            if content(s, t).contains_key(key@) {
                assert(!ids(ct).contains(d));
                assert(s4[d] == s3[d]);
            }
            assert(frame_outside(s, s4, ids(t)));
        }
        Ok((nid, Ghost(nt), Ghost(d)))
    }

    /// Restores the balance at `id` after a deletion below it, by a single or
    /// a double rotation chosen by the balance of the higher child.
    #[verifier::spinoff_prover]
    #[verifier::rlimit(100)]
    fn rebalance_after_delete(&mut self, id: RawIndex, Ghost(ct): Ghost<Shape>) -> (r: Result<
        (RawIndex, Ghost<Shape>),
        SovereignError,
    >)
        requires
            old(self).storage.wf(),
            ct is Bin,
            root_of(ct) == id,
            linked(old(self).storage.slots(), ct, id),
            distinct(ct),
            ordered(old(self).storage.slots(), ct),
            heights_ok(old(self).storage.slots(), ct),
            balanced(left_of(ct)),
            balanced(right_of(ct)),
            height(left_of(ct)) <= height(right_of(ct)) + 2,
            height(right_of(ct)) <= height(left_of(ct)) + 2,
            height(ct) <= 66,
        ensures
            final(self).storage.wf(),
            final(self).root == old(self).root,
            final(self).shape == old(self).shape,
            final(self).storage.free() == old(self).storage.free(),
            match r {
                Ok((nid, nt)) => {
                    let s3 = old(self).storage.slots();
                    let s4 = final(self).storage.slots();
                    let hl = height(left_of(ct));
                    let hr = height(right_of(ct));
                    &&& nt@ == rebal_del(ct)
                    &&& sound(s4, nt@, nid)
                    &&& content(s4, nt@) == content(s3, ct)
                    &&& ids(nt@) == ids(ct)
                    &&& s4.len() == s3.len()
                    &&& frame_outside(s3, s4, ids(ct))
                    &&& (digests_ok(s3, ct) ==> digests_ok(s4, nt@))
                    &&& (balanced(ct) ==> nid == id && nt@ == ct && s4 == s3)
                    &&& (hl == hr + 2 ==> height(nt@) == hl || height(nt@) == hl + 1)
                    &&& (hr == hl + 2 ==> height(nt@) == hr || height(nt@) == hr + 1)
                },
                Err(_) => false,
            },
    {
        let current_id = id;
        let ghost s3 = self.storage.slots();
        let ghost lc = left_of(ct);
        let ghost rc = right_of(ct);
        proof {
            assert(ct == bin(lc, id, rc));
            assert(linked(s3, lc, s3[id as int].left));
            assert(linked(s3, rc, s3[id as int].right));
            lemma_stored_height(s3, lc, s3[id as int].left);
            lemma_stored_height(s3, rc, s3[id as int].right);
        }
        let balance = self.get_balance(current_id)?;
        proof {
            assert(ct == bin(lc, id, rc));
            assert(linked(s3, lc, s3[id as int].left));
            assert(linked(s3, rc, s3[id as int].right));
            lemma_linked_live(s3, lc, s3[id as int].left);
            lemma_linked_live(s3, rc, s3[id as int].right);
            assert(heights_ok(s3, lc));
            assert(heights_ok(s3, rc));
            assert(balance == height(lc) - height(rc));
            lemma_root_in_ids(ct);
            if lc is Bin {
                assert(distinct(lc));
                assert(linked(s3, left_of(lc), s3[root_of(lc) as int].left));
                assert(linked(s3, right_of(lc), s3[root_of(lc) as int].right));
                assert(heights_ok(s3, left_of(lc)));
                assert(heights_ok(s3, right_of(lc)));
                lemma_linked_live(s3, left_of(lc), s3[root_of(lc) as int].left);
                lemma_linked_live(s3, right_of(lc), s3[root_of(lc) as int].right);
            }
            if rc is Bin {
                assert(distinct(rc));
                assert(linked(s3, left_of(rc), s3[root_of(rc) as int].left));
                assert(linked(s3, right_of(rc), s3[root_of(rc) as int].right));
                assert(heights_ok(s3, left_of(rc)));
                assert(heights_ok(s3, right_of(rc)));
                lemma_linked_live(s3, left_of(rc), s3[root_of(rc) as int].left);
                lemma_linked_live(s3, right_of(rc), s3[root_of(rc) as int].right);
            }
        }

        // LL Case
        if balance > 1 && self.get_balance(self.storage.get(current_id)?.left)? >= 0 {
            let x = self.rotate_right(current_id, Ghost(ct))?;
            let ghost t2 = bin(left_of(lc), x, bin(right_of(lc), id, rc));
            proof {
                let s4 = self.storage.slots();
                lemma_root_in_ids(lc);
                assert(balanced(lc));
                assert(balanced(left_of(lc)));
                assert(balanced(right_of(lc)));
                assert(balanced(bin(right_of(lc), id, rc)));
                assert(balanced(t2));
                assert(digests_ok(s3, ct) ==> digests_ok(s3, lc) && digests_ok(s3, left_of(lc)) && digests_ok(
                    s3,
                    right_of(lc),
                ));
                assert(frame_outside(s3, s4, ids(ct)));
            }
            return Ok((x, Ghost(t2)));
        }

        // LR Case
        if balance > 1 && self.get_balance(self.storage.get(current_id)?.left)? < 0 {
            let ghost a = left_of(lc);
            let ghost m = right_of(lc);
            proof {
                assert(m is Bin);
                assert(balanced(lc));
                assert(balanced(m));
                assert(linked(s3, left_of(m), s3[root_of(m) as int].left));
                assert(heights_ok(s3, left_of(m)));
                assert(heights_ok(s3, right_of(m)));
            }
            let left = self.storage.get(current_id)?.left;
            let z = self.rotate_left(left, Ghost(lc))?;
            let ghost s4 = self.storage.slots();
            let ghost lc2 = bin(bin(a, root_of(lc), left_of(m)), z, right_of(m));
            self.storage.get_mut(current_id)?.left = z;
            let ghost s5 = self.storage.slots();
            proof {
                lemma_root_in_ids(lc);
                lemma_root_in_ids(m);
                assert(!ids(lc).contains(id as int));
                assert(!ids(rc).contains(root_of(lc) as int));
                assert(!ids(rc).contains(z as int));
                assert(s4[id as int] == s3[id as int]);
                lemma_linked_live(s4, lc2, z);
                assert(agree_on(s4, s5, lc2));
                lemma_frame(s4, s5, lc2, z);
                assert(agree_on(s3, s5, rc));
                lemma_frame(s3, s5, rc, s3[id as int].right);
                assert(linked(s5, bin(lc2, id, rc), id));
                assert(distinct(bin(lc2, id, rc)));
                assert(heights_ok(s4, bin(a, root_of(lc), left_of(m))));
                assert(heights_ok(s4, right_of(m)));
                lemma_linked_live(s4, bin(a, root_of(lc), left_of(m)), s4[z as int].left);
                lemma_frame(s4, s5, bin(a, root_of(lc), left_of(m)), s4[z as int].left);
                lemma_linked_live(s4, right_of(m), s4[z as int].right);
                lemma_frame(s4, s5, right_of(m), s4[z as int].right);
            }
            let x = self.rotate_right(current_id, Ghost(bin(lc2, id, rc)))?;
            let ghost t2 = bin(bin(a, root_of(lc), left_of(m)), z, bin(right_of(m), id, rc));
            proof {
                let s6 = self.storage.slots();
                assert(x == z);
                assert(balanced(left_of(m)));
                assert(balanced(right_of(m)));
                assert(balanced(bin(a, root_of(lc), left_of(m))));
                assert(balanced(bin(right_of(m), id, rc)));
                assert(balanced(t2));
                assert(ordered(s3, lc));
                assert(ordered(s4, lc2));
                assert(content(s5, lc2) == content(s3, lc));
                assert(content(s5, rc) == content(s3, rc));
                assert(ordered(s5, bin(lc2, id, rc)));
                assert(content(s5, bin(lc2, id, rc)) == content(s3, ct));
                if digests_ok(s3, ct) {
                    assert(digests_ok(s3, lc));
                    assert(digests_ok(s3, m));
                    assert(digests_ok(s4, lc2));
                    assert(digests_ok(s5, bin(a, root_of(lc), left_of(m))));
                    assert(digests_ok(s5, right_of(m)));
                    assert(digests_ok(s5, rc));
                    assert(digests_ok(s6, t2));
                }
                assert(frame_outside(s3, s6, ids(ct)));
            }
            return Ok((x, Ghost(t2)));
        }

        // RR Case
        if balance < -1 && self.get_balance(self.storage.get(current_id)?.right)? <= 0 {
            let y = self.rotate_left(current_id, Ghost(ct))?;
            let ghost t2 = bin(bin(lc, id, left_of(rc)), y, right_of(rc));
            proof {
                let s4 = self.storage.slots();
                lemma_root_in_ids(rc);
                assert(balanced(rc));
                assert(balanced(left_of(rc)));
                assert(balanced(right_of(rc)));
                assert(balanced(bin(lc, id, left_of(rc))));
                assert(balanced(t2));
                assert(digests_ok(s3, ct) ==> digests_ok(s3, rc) && digests_ok(s3, left_of(rc)) && digests_ok(
                    s3,
                    right_of(rc),
                ));
                assert(frame_outside(s3, s4, ids(ct)));
            }
            return Ok((y, Ghost(t2)));
        }

        // RL Case
        if balance < -1 && self.get_balance(self.storage.get(current_id)?.right)? > 0 {
            let ghost c = right_of(rc);
            let ghost m = left_of(rc);
            proof {
                assert(m is Bin);
                assert(balanced(rc));
                assert(balanced(m));
                assert(linked(s3, left_of(m), s3[root_of(m) as int].left));
                assert(heights_ok(s3, left_of(m)));
                assert(heights_ok(s3, right_of(m)));
            }
            let right = self.storage.get(current_id)?.right;
            let z = self.rotate_right(right, Ghost(rc))?;
            let ghost s4 = self.storage.slots();
            let ghost rc2 = bin(left_of(m), z, bin(right_of(m), root_of(rc), c));
            self.storage.get_mut(current_id)?.right = z;
            let ghost s5 = self.storage.slots();
            proof {
                lemma_root_in_ids(rc);
                lemma_root_in_ids(m);
                assert(!ids(rc).contains(id as int));
                assert(!ids(lc).contains(root_of(rc) as int));
                assert(!ids(lc).contains(z as int));
                assert(s4[id as int] == s3[id as int]);
                lemma_linked_live(s4, rc2, z);
                assert(agree_on(s4, s5, rc2));
                lemma_frame(s4, s5, rc2, z);
                assert(agree_on(s3, s5, lc));
                lemma_frame(s3, s5, lc, s3[id as int].left);
                assert(linked(s5, bin(lc, id, rc2), id));
                assert(distinct(bin(lc, id, rc2)));
                assert(heights_ok(s4, bin(right_of(m), root_of(rc), c)));
                assert(heights_ok(s4, left_of(m)));
                lemma_linked_live(s4, bin(right_of(m), root_of(rc), c), s4[z as int].right);
                lemma_frame(s4, s5, bin(right_of(m), root_of(rc), c), s4[z as int].right);
                lemma_linked_live(s4, left_of(m), s4[z as int].left);
                lemma_frame(s4, s5, left_of(m), s4[z as int].left);
            }
            let y = self.rotate_left(current_id, Ghost(bin(lc, id, rc2)))?;
            let ghost t2 = bin(bin(lc, id, left_of(m)), z, bin(right_of(m), root_of(rc), c));
            proof {
                let s6 = self.storage.slots();
                assert(y == z);
                assert(balanced(left_of(m)));
                assert(balanced(right_of(m)));
                assert(balanced(bin(right_of(m), root_of(rc), c)));
                assert(balanced(bin(lc, id, left_of(m))));
                assert(balanced(t2));
                assert(ordered(s3, rc));
                assert(ordered(s4, rc2));
                assert(content(s5, rc2) == content(s3, rc));
                assert(content(s5, lc) == content(s3, lc));
                assert(ordered(s5, bin(lc, id, rc2)));
                assert(content(s5, bin(lc, id, rc2)) == content(s3, ct));
                if digests_ok(s3, ct) {
                    assert(digests_ok(s3, rc));
                    assert(digests_ok(s3, m));
                    assert(digests_ok(s4, rc2));
                    assert(digests_ok(s5, bin(right_of(m), root_of(rc), c)));
                    assert(digests_ok(s5, left_of(m)));
                    assert(digests_ok(s5, lc));
                    assert(digests_ok(s6, t2));
                }
                assert(frame_outside(s3, s6, ids(ct)));
            }
            return Ok((y, Ghost(t2)));
        }

        proof {
            assert(balanced(ct));
        }
        Ok((current_id, Ghost(ct)))
    }

    /// Follows left links from `id` down to the node with no left child,
    /// checking the digest of each node on the way.
    fn get_min_node(&self, id: RawIndex, Ghost(t): Ghost<Shape>) -> (r: Result<RawIndex, SovereignError>)
        requires
            linked(self.storage.slots(), t, id),
        ensures
            r == match spine_violation(self.storage.slots(), t) {
                Some(v) => Err::<RawIndex, SovereignError>(SovereignError::IntegrityViolation(v)),
                None => Ok(leftmost(t)),
            },
    {
        let ghost s = self.storage.slots();
        let mut curr = id;
        let ghost mut ct = t;
        proof {
            lemma_linked_live(s, t, id);
        }
        while curr != NULL_INDEX
            invariant
                linked(s, ct, curr),
                s == self.storage.slots(),
                ct is Bin ==> leftmost(ct) == leftmost(t),
                ct is Nil ==> t is Nil,
                curr == NULL_INDEX <==> ct is Nil,
                spine_violation(s, t) == spine_violation(s, ct),
            ensures
                spine_violation(s, t) is None,
                curr == leftmost(t),
            decreases height(ct),
        {
            proof {
                lemma_linked_live(s, ct, curr);
                assert(linked(s, left_of(ct), s[curr as int].left));
                assert(linked(s, right_of(ct), s[curr as int].right));
                lemma_linked_live(s, left_of(ct), s[curr as int].left);
                lemma_linked_live(s, right_of(ct), s[curr as int].right);
            }
            self.check_digest(curr)?;
            let left = self.storage.get(curr)?.left;
            if left == NULL_INDEX {
                break;
            }
            curr = left;
            proof {
                ct = left_of(ct);
            }
        }
        Ok(curr)
    }

    /// The nodes of the tree in pre-order, with depth, key, stored height and
    /// stored digest.
    pub closed spec fn dump(&self) -> Seq<(nat, Seq<u8>, i32, u64)> {
        dump_lines(self.storage.slots(), self.shape@, 0)
    }

    /// Lists the nodes of the tree in pre-order with their depth, key, stored
    /// height and stored digest.
    pub fn dump_tree(&self) -> (r: Result<Vec<DumpLine>, SovereignError>)
        requires
            self.wf(),
        ensures
            r matches Ok(lines) && lines@.map_values(|d: DumpLine| d@) == self.dump(),
    {
        proof {
            lemma_height_bound(self.slots(), self.shape@, self.root);
        }
        let mut out: Vec<DumpLine> = Vec::new();
        self.recursive_dump(self.root, 0, &mut out, Ghost(self.shape@))?;
        proof {
            assert(out@.map_values(|d: DumpLine| d@) =~= Seq::<(nat, Seq<u8>, i32, u64)>::empty() + dump_lines(
                self.slots(),
                self.shape@,
                0,
            ));
        }
        Ok(out)
    }

    fn recursive_dump(&self, id: RawIndex, depth: usize, out: &mut Vec<DumpLine>, Ghost(t): Ghost<Shape>) -> (r:
        Result<(), SovereignError>)
        requires
            linked(self.slots(), t, id),
            depth + height(t) <= usize::MAX,
        ensures
            r is Ok,
            final(out)@.map_values(|d: DumpLine| d@) == old(out)@.map_values(|d: DumpLine| d@) + dump_lines(
                self.slots(),
                t,
                depth as nat,
            ),
        decreases t,
    {
        let ghost s = self.slots();
        proof {
            lemma_linked_live(s, t, id);
        }
        if id == NULL_INDEX {
            proof {
                assert(final(out)@.map_values(|d: DumpLine| d@) =~= old(out)@.map_values(|d: DumpLine| d@)
                    + dump_lines(s, t, depth as nat));
            }
            return Ok(());
        }
        proof {
            assert(linked(s, left_of(t), s[id as int].left));
            assert(linked(s, right_of(t), s[id as int].right));
        }
        let node = self.storage.get(id)?;
        out.push(DumpLine { depth, key: copy_bytes(&node.key), height: node.height, hash: node.hash });
        let ghost mid = out@;
        self.recursive_dump(node.left, depth + 1, out, Ghost(left_of(t)))?;
        self.recursive_dump(node.right, depth + 1, out, Ghost(right_of(t)))?;
        proof {
            assert(mid.map_values(|d: DumpLine| d@) =~= old(out)@.map_values(|d: DumpLine| d@) + seq![
                (depth as nat, s[id as int].key, s[id as int].height, s[id as int].hash),
            ]);
            assert(final(out)@.map_values(|d: DumpLine| d@) =~= old(out)@.map_values(|d: DumpLine| d@)
                + dump_lines(s, t, depth as nat));
        }
        Ok(())
    }

    /// Inverts the lowest bit of the first byte of the value stored under
    /// `key`, leaving its digest as it was: a simulated memory fault, for
    /// exercising the integrity checks. The search does not check digests.
    pub fn internal_corrupt_node(&mut self, key: &Vec<u8>) -> (r: Result<(), SovereignError>)
        requires
            old(self).wf(),
            old(self)@.contains_key(key@) ==> old(self)@[key@].len() > 0,
        ensures
            final(self).wf(),
            match r {
                Ok(_) => {
                    &&& old(self)@.contains_key(key@)
                    &&& final(self)@ == old(self)@.insert(key@, flip_first_bit(old(self)@[key@]))
                    &&& final(self)@.dom() == old(self)@.dom()
                    &&& final(self)@[key@].len() == old(self)@[key@].len()
                    &&& final(self)@[key@][0] == old(self)@[key@][0] ^ 1u8
                    &&& final(self)@[key@][0] != old(self)@[key@][0]
                    &&& forall|j: int| 1 <= j < old(self)@[key@].len() ==> #[trigger] final(self)@[key@][j]
                        == old(self)@[key@][j]
                    &&& final(self)@[key@] != old(self)@[key@]
                    &&& final(self).same_layout(old(self))
                    &&& final(self).slot_count() == old(self).slot_count()
                    &&& final(self).alloc_fails() == old(self).alloc_fails()
                    &&& exists|i: int|
                        #![trigger old(self).slots()[i]]
                        old(self).slot_live(i) && old(self).slots()[i].key == key@ && final(self).slots()
                            == old(self).slots().update(
                            i,
                            NodeView { value: flip_first_bit(old(self).slots()[i].value), ..old(self).slots()[i] },
                        )
                },
                Err(e) => {
                    &&& !old(self)@.contains_key(key@)
                    &&& e == SovereignError::NodeNotFound(0)
                    &&& final(self).same_state(old(self))
                    &&& final(self)@ == old(self)@
                    &&& final(self).intact() == old(self).intact()
                },
            },
    {
        let ghost s = self.storage.slots();
        let ghost whole = self.shape@;
        let ghost mut ct = self.shape@;
        let mut curr = self.root;
        while curr != NULL_INDEX
            invariant
                self.wf(),
                self.storage.slots() == s,
                self.shape@ == whole,
                self.storage.free() == old(self).storage.free(),
                self.root == old(self).root,
                s == old(self).storage.slots(),
                whole == old(self).shape@,
                sound(s, ct, curr),
                ids(ct).subset_of(ids(whole)),
                content(s, whole).contains_key(key@) == content(s, ct).contains_key(key@),
                content(s, whole).contains_key(key@) ==> content(s, whole)[key@] == content(s, ct)[key@],
                content(s, whole).contains_key(key@) ==> content(s, whole)[key@].len() > 0,
            decreases height(ct),
        {
            proof {
                lemma_linked_live(s, ct, curr);
                lemma_root_in_ids(ct);
                lemma_content_side(s, ct, key@);
                assert(linked(s, left_of(ct), s[curr as int].left));
                assert(linked(s, right_of(ct), s[curr as int].right));
            }
            let node = self.storage.get(curr)?;
            let order = compare_keys(key, &node.key);
            if order == KeyOrder::Less {
                curr = node.left;
                proof {
                    ct = left_of(ct);
                }
            } else if order == KeyOrder::Greater {
                curr = node.right;
                proof {
                    ct = right_of(ct);
                }
            } else {
                // Node found - flip one bit of the value in place
                proof {
                    assert(key@ == s[curr as int].key);
                    lemma_member_key(s, ct, curr, curr as int);
                }
                let node_mut = self.storage.get_mut(curr)?;
                let first = node_mut.value[0];
                node_mut.value[0] = first ^ 0x01;
                proof {
                    lemma_flip_changes_first_byte(s[curr as int].value);
                    let s2 = self.storage.slots();
                    assert(s2[curr as int].value =~= flip_first_bit(s[curr as int].value));
                    assert(s2[curr as int] == (NodeView { value: s2[curr as int].value, ..s[curr as int] }));
                    lemma_value_update(s, s2, whole, self.root, curr as int);
                    assert(s2 =~= s.update(
                        curr as int,
                        NodeView { value: flip_first_bit(s[curr as int].value), ..s[curr as int] },
                    ));
                    assert(old(self).slot_live(curr as int));
                    assert(old(self).slots()[curr as int].key == key@);
                    assert(self.same_layout(old(self)));
                    if self.storage.free().len() > 0 {
                        assert(s2[self.storage.free().last() as int].generation == s[self.storage.free().last() as int].generation);
                    }
                    assert forall|i: int| 0 <= i < s2.len() implies (#[trigger] s2[i].is_active
                        <==> ids(whole).contains(i)) by {
                        assert(s[i].is_active == s2[i].is_active);
                    }
                }
                return Ok(());
            }
        }
        proof {
            assert(content(s, ct) == Map::<Seq<u8>, Seq<u8>>::empty());
        }
        Err(SovereignError::NodeNotFound(0))
    }

    /// Recomputes the digest of the live node in slot `id` from its key, its
    /// value and its children's stored digests, and compares it with the
    /// stored one.
    pub fn verify_integrity(&self, id: RawIndex) -> (r: Result<(), SovereignError>)
        requires
            self.wf(),
        ensures
            r == if !is_live(self.slots(), id) {
                Err(lookup_error(self.slots(), id))
            } else if digest_ok(self.slots(), id) {
                Ok(())
            } else {
                Err(SovereignError::IntegrityViolation(id))
            },
    {
        proof {
            if is_live(self.slots(), id) {
                lemma_children_live(self.slots(), self.shape@, self.root, id as int);
            }
        }
        self.check_digest(id)
    }

    /// The digest check of `verify_integrity`, for any arena whose node at `id`
    /// (if live) has children that are absent or live.
    fn check_digest(&self, id: RawIndex) -> (r: Result<(), SovereignError>)
        requires
            is_live(self.slots(), id) ==> child_ok(self.slots(), self.slots()[id as int].left) && child_ok(
                self.slots(),
                self.slots()[id as int].right,
            ),
        ensures
            r == if !is_live(self.slots(), id) {
                Err(lookup_error(self.slots(), id))
            } else if digest_ok(self.slots(), id) {
                Ok(())
            } else {
                Err(SovereignError::IntegrityViolation(id))
            },
    {
        let node = self.storage.get(id)?;
        let left_hash = if node.left != NULL_INDEX {
            Some(self.storage.get(node.left)?.hash)
        } else {
            None
        };
        let right_hash = if node.right != NULL_INDEX {
            Some(self.storage.get(node.right)?.hash)
        } else {
            None
        };
        let current_hash = compute_node_digest(&node.key, &node.value, left_hash, right_hash);
        if current_hash != node.hash {
            return Err(SovereignError::IntegrityViolation(id));
        }
        Ok(())
    }

    /// The pairs of the tree by increasing key.
    pub closed spec fn entries(&self) -> Seq<(Seq<u8>, Seq<u8>)> {
        inorder(self.storage.slots(), self.shape@)
    }

    /// Returns an in-order iterator over the tree.
    pub fn iter(&self) -> (r: InOrderIter<'_>)
        requires
            self.wf(),
        ensures
            r.wf(),
            r.remaining() == self.entries(),
    {
        InOrderIter::new(self.root, &self.storage, Ghost(self.shape@))
    }

    /// Checks the digest of every node of the tree, in pre-order, and reports
    /// the first one that fails.
    pub fn full_audit(&self) -> (r: Result<(), SovereignError>)
        requires
            self.wf(),
        ensures
            r == match self.first_bad_node() {
                Some(id) => Err(SovereignError::IntegrityViolation(id)),
                None => Ok(()),
            },
    {
        self.recursive_audit(self.root, Ghost(self.shape@))
    }

    fn recursive_audit(&self, id: RawIndex, Ghost(t): Ghost<Shape>) -> (r: Result<(), SovereignError>)
        requires
            linked(self.slots(), t, id),
        ensures
            r == match audit_violation(self.slots(), t) {
                Some(v) => Err(SovereignError::IntegrityViolation(v)),
                None => Ok(()),
            },
        decreases t,
    {
        let ghost s = self.slots();
        proof {
            lemma_linked_live(s, t, id);
        }
        if id == NULL_INDEX {
            return Ok(());
        }
        proof {
            assert(linked(s, left_of(t), s[id as int].left));
            assert(linked(s, right_of(t), s[id as int].right));
            lemma_linked_live(s, left_of(t), s[id as int].left);
            lemma_linked_live(s, right_of(t), s[id as int].right);
        }
        self.check_digest(id)?;
        let node = self.storage.get(id)?;
        self.recursive_audit(node.left, Ghost(left_of(t)))?;
        self.recursive_audit(node.right, Ghost(right_of(t)))?;
        Ok(())
    }

    /// Checks the whole tree: search order, digests, balance and stored
    /// heights, node by node in pre-order; the first failure is reported as
    /// `IntegrityViolation` of that node. On a well-formed tree only a digest
    /// can fail.
    pub fn validate_invariants(&self) -> (r: Result<(), SovereignError>)
        requires
            self.wf(),
        ensures
            r == match validation(self.slots(), self.tree_shape(), None, None) {
                Ok(_) => Ok(()),
                Err(v) => Err(SovereignError::IntegrityViolation(v)),
            },
            r == match self.first_bad_node() {
                Some(id) => Err(SovereignError::IntegrityViolation(id)),
                None => Ok(()),
            },
    {
        proof {
            lemma_validation_sound(self.slots(), self.shape@, self.root, None, None);
        }
        match self.recursive_validate_invariants(self.root, None, None, Ghost(self.shape@)) {
            Ok(_) => Ok(()),
            Err(e) => Err(e),
        }
    }

    /// Validates the subtree `t` linked from `id`, whose keys must lie
    /// strictly between `min` and `max` where given.
    fn recursive_validate_invariants(
        &self,
        id: RawIndex,
        min: Option<&Vec<u8>>,
        max: Option<&Vec<u8>>,
        Ghost(t): Ghost<Shape>,
    ) -> (r: Result<i32, SovereignError>)
        requires
            self.storage.wf(),
            linked(self.slots(), t, id),
            distinct(t),
        ensures
            r == match validation(self.slots(), t, bound_view(min), bound_view(max)) {
                Ok(h) => Ok(h as i32),
                Err(v) => Err(SovereignError::IntegrityViolation(v)),
            },
        decreases t,
    {
        let ghost s = self.slots();
        proof {
            lemma_linked_live(s, t, id);
        }
        if id == NULL_INDEX {
            return Ok(0);
        }
        proof {
            assert(linked(s, left_of(t), s[id as int].left));
            assert(linked(s, right_of(t), s[id as int].right));
            lemma_linked_live(s, left_of(t), s[id as int].left);
            lemma_linked_live(s, right_of(t), s[id as int].right);
            lemma_key_order_all();
        }

        let node = self.storage.get(id)?;

        // 1. BST Invariant: G < R < D
        if let Some(m) = min {
            if compare_keys(&node.key, m) != KeyOrder::Greater {
                return Err(SovereignError::IntegrityViolation(id));
            }
        }
        if let Some(m) = max {
            if compare_keys(&node.key, m) != KeyOrder::Less {
                return Err(SovereignError::IntegrityViolation(id));
            }
        }

        // 2. Merkle Integrity: Immediate verification
        self.check_digest(id)?;

        // 3. Recursive Checks
        let left_h = self.recursive_validate_invariants(node.left, min, Some(&node.key), Ghost(left_of(t)))?;
        let right_h = self.recursive_validate_invariants(node.right, Some(&node.key), max, Ghost(right_of(t)))?;
        proof {
            let k = s[id as int].key;
            lemma_validation_ok(s, left_of(t), bound_view(min), Some(k));
            lemma_validation_ok(s, right_of(t), Some(k), bound_view(max));
            lemma_height_bound(s, left_of(t), s[id as int].left);
            lemma_height_bound(s, right_of(t), s[id as int].right);
        }

        // 4. AVL Invariant: Balance factor
        if left_h - right_h > 1 || right_h - left_h > 1 {
            return Err(SovereignError::IntegrityViolation(id));
        }

        // 5. Stored Height Invariant
        let actual_h = 1 + if left_h >= right_h { left_h } else { right_h };
        if node.height != actual_h {
            return Err(SovereignError::IntegrityViolation(id));
        }

        Ok(actual_h)
    }
}

/// What is left to visit when the nodes of `shapes` wait on a stack, the last
/// one on top: each node, then its right subtree, from the top down.
pub open spec fn stack_rest(s: Seq<NodeView>, shapes: Seq<Shape>) -> Seq<(Seq<u8>, Seq<u8>)>
    decreases shapes.len(),
{
    if shapes.len() == 0 {
        Seq::empty()
    } else {
        let t = shapes.last();
        seq![(s[root_of(t) as int].key, s[root_of(t) as int].value)] + inorder(s, right_of(t)) + stack_rest(
            s,
            shapes.drop_last(),
        )
    }
}

/// An in-order walk over the pairs of a tree.
pub struct InOrderIter<'a> {
    stack: Vec<RawIndex>,
    storage: &'a NodeContainer,
    pending: Ghost<Seq<Shape>>,
}

impl<'a> InOrderIter<'a> {
    /// Each index on the stack roots the recorded subtree in the arena.
    pub closed spec fn wf(&self) -> bool {
        &&& self.stack@.len() == self.pending@.len()
        &&& forall|j: int|
            0 <= j < self.stack@.len() ==> #[trigger] self.pending@[j] is Bin && linked(
                self.storage.slots(),
                self.pending@[j],
                self.stack@[j],
            )
    }

    /// The pairs that the walk has still to hand out, in order.
    pub closed spec fn remaining(&self) -> Seq<(Seq<u8>, Seq<u8>)> {
        stack_rest(self.storage.slots(), self.pending@)
    }

    /// Pushes `curr` and the nodes down its left spine.
    fn push_left_spine(&mut self, curr: RawIndex, Ghost(t): Ghost<Shape>)
        requires
            old(self).wf(),
            linked(old(self).storage.slots(), t, curr),
        ensures
            final(self).wf(),
            final(self).storage == old(self).storage,
            final(self).remaining() == inorder(old(self).storage.slots(), t) + old(self).remaining(),
    {
        let ghost s = self.storage.slots();
        let ghost start = self.remaining();
        let mut curr = curr;
        let ghost mut ct = t;
        while curr != NULL_INDEX
            invariant
                self.wf(),
                self.storage == old(self).storage,
                s == self.storage.slots(),
                linked(s, ct, curr),
                inorder(s, ct) + self.remaining() == inorder(s, t) + start,
            decreases height(ct),
        {
            proof {
                lemma_linked_live(s, ct, curr);
                assert(linked(s, left_of(ct), s[curr as int].left));
            }
            let ghost before = self.pending@;
            self.stack.push(curr);
            proof {
                self.pending@ = self.pending@.push(ct);
                assert(self.pending@.drop_last() =~= before);
                assert(inorder(s, ct) == inorder(s, left_of(ct)) + seq![(s[curr as int].key, s[curr as int].value)]
                    + inorder(s, right_of(ct)));
                assert(inorder(s, left_of(ct)) + self.remaining() =~= inorder(s, ct) + stack_rest(s, before));
            }
            curr = match self.storage.get(curr) {
                Ok(n) => n.left,
                Err(_) => NULL_INDEX,
            };
            proof {
                ct = left_of(ct);
            }
        }
        proof {
            assert(inorder(s, ct) == Seq::<(Seq<u8>, Seq<u8>)>::empty());
            assert(self.remaining() =~= inorder(s, t) + start);
        }
    }

    fn new(root: RawIndex, storage: &'a NodeContainer, Ghost(t): Ghost<Shape>) -> (r: Self)
        requires
            linked(storage.slots(), t, root),
        ensures
            r.wf(),
            r.storage == storage,
            r.remaining() == inorder(storage.slots(), t),
    {
        let mut it = Self { stack: Vec::new(), storage, pending: Ghost(Seq::empty()) };
        proof {
            assert(it.remaining() == Seq::<(Seq<u8>, Seq<u8>)>::empty());
        }
        it.push_left_spine(root, Ghost(t));
        proof {
            assert(it.remaining() =~= inorder(storage.slots(), t));
        }
        it
    }

    /// Hands out the next pair, by increasing key, or `None` at the end.
    pub fn next(&mut self) -> (r: Option<(&'a Vec<u8>, &'a Vec<u8>)>)
        requires
            old(self).wf(),
        ensures
            final(self).wf(),
            old(self).remaining().len() == 0 ==> r is None && final(self).remaining() == old(self).remaining(),
            old(self).remaining().len() > 0 ==> r is Some && (r->Some_0.0@, r->Some_0.1@) == old(self).remaining()[0]
                && final(self).remaining() == old(self).remaining().drop_first(),
    {
        let ghost s = self.storage.slots();
        let ghost shapes = self.pending@;
        if self.stack.len() == 0 {
            proof {
                assert(shapes.len() == 0);
            }
            return None;
        }
        let node_id = match self.stack.pop() {
            Some(i) => i,
            None => {
                return None;
            },
        };
        let ghost top = shapes.last();
        proof {
            assert(linked(s, top, node_id));
            self.pending@ = shapes.drop_last();
            assert forall|j: int| 0 <= j < self.stack@.len() implies #[trigger] self.pending@[j] is Bin && linked(
                self.storage.slots(),
                self.pending@[j],
                self.stack@[j],
            ) by {
                assert(shapes[j] == self.pending@[j]);
            }
            lemma_linked_live(s, top, node_id);
            assert(linked(s, right_of(top), s[node_id as int].right));
        }
        let storage: &'a NodeContainer = self.storage;
        let node = match storage.get(node_id) {
            Ok(n) => n,
            Err(_) => {
                return None;
            },
        };
        self.push_left_spine(node.right, Ghost(right_of(top)));
        proof {
            assert(old(self).remaining() == seq![(s[node_id as int].key, s[node_id as int].value)] + inorder(
                s,
                right_of(top),
            ) + stack_rest(s, shapes.drop_last()));
            assert(self.remaining() =~= old(self).remaining().drop_first());
        }
        Some((&node.key, &node.value))
    }
}

impl SovereignAVL {
    /// The number of levels of the tree.
    pub closed spec fn tree_height(&self) -> nat {
        height(self.shape@)
    }

    /// On a tree whose digests are all correct, no search meets a bad node
    /// and no audit finds one: `get` answers from the pairs, `full_audit` and
    /// `validate_invariants` succeed.
    pub proof fn law_intact_tree_reads_cleanly(&self, k: Seq<u8>)
        requires
            self.wf(),
            self.intact(),
        ensures
            self.first_bad_on_path(k) is None,
            self.first_bad_for_delete(k) is None,
            self.first_bad_node() is None,
    {
        lemma_no_violation(self.storage.slots(), self.shape@, k);
    }

    /// A search reports a live node of its path whose digest is wrong, the
    /// first one from the root down, and reports nothing exactly when every
    /// node of its path carries a right digest; an audit reports a live node
    /// whose digest is wrong.
    pub proof fn law_reports_name_bad_nodes(&self, k: Seq<u8>)
        requires
            self.wf(),
        ensures
            forall|i: int| #[trigger] self.search_path(k).contains(i) ==> self.slot_live(i),
            self.first_bad_on_path(k) matches Some(n) ==> self.search_path(k).contains(n as int) && self.slot_live(
                n as int,
            ) && !digest_ok(self.slots(), n),
            self.first_bad_on_path(k) is None <==> forall|i: RawIndex| #[trigger]
                self.search_path(k).contains(i as int) ==> digest_ok(self.slots(), i),
            self.first_bad_node() matches Some(n) ==> self.slot_live(n as int) && !digest_ok(self.slots(), n),
    {
        let s = self.storage.slots();
        let t = self.shape@;
        lemma_linked_live(s, t, self.root);
        lemma_path_violation(s, t, self.root, k);
        lemma_audit_violation(s, t);
        if forall|i: RawIndex| #[trigger] self.search_path(k).contains(i as int) ==> digest_ok(s, i) {
            assert forall|i: RawIndex| #[trigger] path_ids(s, t, k).contains(i as int) implies digest_ok(s, i) by {
                assert(self.search_path(k).contains(i as int));
            }
        }
        if self.first_bad_on_path(k) is None {
            assert forall|i: RawIndex| #[trigger] self.search_path(k).contains(i as int) implies digest_ok(s, i) by {
                assert(path_ids(s, t, k).contains(i as int));
            }
        }
    }

    /// When every live node but `n` carries a right digest, a search reports
    /// `n` exactly when `n` lies on its path with a wrong digest, and
    /// nothing otherwise.
    pub proof fn law_single_bad_node(&self, k: Seq<u8>, n: RawIndex)
        requires
            self.wf(),
            forall|i: RawIndex| #[trigger] self.slot_live(i as int) && i != n ==> digest_ok(self.slots(), i),
        ensures
            self.first_bad_on_path(k) == if self.search_path(k).contains(n as int) && !digest_ok(self.slots(), n) {
                Some(n)
            } else {
                None
            },
    {
        self.law_reports_name_bad_nodes(k);
        if let Some(m) = self.first_bad_on_path(k) {
            assert(self.slot_live(m as int));
        } else {
            if self.search_path(k).contains(n as int) {
                assert(digest_ok(self.slots(), n));
            }
        }
    }

    /// Inverting a value bit of one live node of an intact tree, as
    /// `internal_corrupt_node` does, leaves every other node's digest right;
    /// a search then reports that node exactly when it lies on the search
    /// path and its digest no longer matches, and reports nothing otherwise.
    pub proof fn law_corruption_stays_local(before: &SovereignAVL, after: &SovereignAVL, n: RawIndex, k: Seq<u8>)
        requires
            before.wf(),
            before.intact(),
            after.wf(),
            after.same_layout(before),
            before.slot_live(n as int),
            after.slots() == before.slots().update(
                n as int,
                NodeView { value: flip_first_bit(before.slots()[n as int].value), ..before.slots()[n as int] },
            ),
        ensures
            forall|i: RawIndex| #[trigger] after.slot_live(i as int) && i != n ==> digest_ok(after.slots(), i),
            after.first_bad_on_path(k) == if after.search_path(k).contains(n as int) && !digest_ok(
                after.slots(),
                n,
            ) {
                Some(n)
            } else {
                None
            },
    {
        let s = before.storage.slots();
        let s2 = after.storage.slots();
        let t = before.shape@;
        lemma_digests_ok_all(s, t);
        assert forall|i: RawIndex| #[trigger] after.slot_live(i as int) && i != n implies digest_ok(s2, i) by {
            assert(before.slot_live(i as int));
            assert(ids(t).contains(i as int));
            lemma_children_live(s, t, before.root, i as int);
            assert(digest_ok(s, i));
            assert(child_digest(s2, s[i as int].left) == child_digest(s, s[i as int].left));
            assert(child_digest(s2, s[i as int].right) == child_digest(s, s[i as int].right));
        }
        after.law_single_bad_node(k, n);
    }

    /// In an intact tree every live node stores the first eight bytes, read
    /// little-endian, of the BLAKE3 hash of its key, then its value, then the
    /// little-endian stored digest of its left child and then of its right
    /// child, each where the child is present (and every present child is a
    /// live node): a node's digest commits to its children's digests, and so
    /// the root's to the whole tree.
    pub proof fn law_digest_chains_children(&self)
        requires
            self.wf(),
            self.intact(),
        ensures
            forall|i: RawIndex| #[trigger] self.slot_live(i as int) ==> {
                let n = self.slots()[i as int];
                &&& (n.left != NULL_INDEX ==> self.slot_live(n.left as int))
                &&& (n.right != NULL_INDEX ==> self.slot_live(n.right as int))
                &&& n.hash == le_word(
                    blake3_digest(
                        n.key + n.value + (if n.left != NULL_INDEX {
                            le_bytes(self.slots()[n.left as int].hash)
                        } else {
                            Seq::empty()
                        }) + (if n.right != NULL_INDEX {
                            le_bytes(self.slots()[n.right as int].hash)
                        } else {
                            Seq::empty()
                        }),
                    ),
                )
            },
    {
        let s = self.storage.slots();
        let t = self.shape@;
        lemma_digests_ok_all(s, t);
        reveal(node_digest);
        assert forall|i: RawIndex| #[trigger] self.slot_live(i as int) implies {
            let n = self.slots()[i as int];
            &&& (n.left != NULL_INDEX ==> self.slot_live(n.left as int))
            &&& (n.right != NULL_INDEX ==> self.slot_live(n.right as int))
            &&& n.hash == le_word(
                blake3_digest(
                    n.key + n.value + (if n.left != NULL_INDEX {
                        le_bytes(self.slots()[n.left as int].hash)
                    } else {
                        Seq::empty()
                    }) + (if n.right != NULL_INDEX {
                        le_bytes(self.slots()[n.right as int].hash)
                    } else {
                        Seq::empty()
                    }),
                ),
            )
        } by {
            assert(ids(t).contains(i as int));
            lemma_children_live(s, t, self.root, i as int);
            assert(digest_ok(s, i));
        }
    }

    /// The slot that the next insertion of a new key fills is the last
    /// released one, or, with none released, a new slot after all others.
    pub proof fn law_next_slot(&self)
        ensures
            self.next_slot() == if self.free_slots().len() > 0 {
                self.free_slots().last()
            } else {
                self.slot_count() as RawIndex
            },
    {
    }

    /// A dump lists the nodes of the tree in pre-order, one line per pair,
    /// with each node's depth, key, stored height and stored digest.
    pub proof fn law_dump_lists_nodes(&self)
        requires
            self.wf(),
        ensures
            self.dump() == dump_lines(self.slots(), self.tree_shape(), 0),
            self.dump().len() == self.entries().len(),
    {
        lemma_dump_len(self.storage.slots(), self.shape@, 0);
        lemma_inorder_len(self.storage.slots(), self.shape@);
    }

    /// After `key` was inserted with `value` into an intact tree, a lookup of
    /// `key` meets no bad node and finds `value`, and lookups of other keys
    /// find what they found before.
    pub proof fn law_read_after_write(before: &SovereignAVL, after: &SovereignAVL, key: Seq<u8>, value: Seq<u8>, other: Seq<u8>)
        requires
            before.wf(),
            before.intact(),
            after.wf(),
            after.intact(),
            after@ == before@.insert(key, value),
            other != key,
        ensures
            after.first_bad_on_path(key) is None,
            after@.contains_key(key),
            after@[key] == value,
            after.first_bad_on_path(other) is None,
            after@.contains_key(other) == before@.contains_key(other),
            before@.contains_key(other) ==> after@[other] == before@[other],
    {
        after.law_intact_tree_reads_cleanly(key);
        after.law_intact_tree_reads_cleanly(other);
    }

    /// After `key` was deleted from an intact tree, a lookup of `key` meets no
    /// bad node and finds nothing.
    pub proof fn law_read_after_delete(before: &SovereignAVL, after: &SovereignAVL, key: Seq<u8>)
        requires
            before.wf(),
            before.intact(),
            after.wf(),
            after.intact(),
            after@ == before@.remove(key),
        ensures
            after.first_bad_on_path(key) is None,
            !after@.contains_key(key),
    {
        after.law_intact_tree_reads_cleanly(key);
    }

    /// An insertion of a new key fails for want of a slot exactly when the
    /// slot to be reused has exhausted its generations, or, with none to
    /// reuse, the arena already has a slot for every index below the null
    /// index.
    pub proof fn law_alloc_fails_exact(&self)
        ensures
            self.alloc_fails() <==> (self.next_reuse_generation() == Some(u32::MAX) || (
            self.next_reuse_generation() is None && self.slot_count() >= NULL_INDEX)),
    {
    }

    /// An audit finds nothing exactly when every digest is correct.
    pub proof fn law_audit_is_exact(&self)
        requires
            self.wf(),
        ensures
            self.first_bad_node() is None <==> self.intact(),
    {
        lemma_no_violation(self.storage.slots(), self.shape@, Seq::empty());
    }

    /// The in-order walk lists every pair of the tree once, by strictly
    /// increasing key.
    pub proof fn law_entries_sorted(&self)
        requires
            self.wf(),
        ensures
            keys_increasing(self.entries()),
            forall|i: int| 0 <= i < self.entries().len() ==> #[trigger] self@.contains_key(self.entries()[i].0)
                && self@[self.entries()[i].0] == self.entries()[i].1,
            forall|k: Seq<u8>| #[trigger] self@.contains_key(k) ==> exists|i: int|
                0 <= i < self.entries().len() && #[trigger] self.entries()[i].0 == k,
    {
        let s = self.storage.slots();
        let t = self.shape@;
        lemma_inorder(s, t);
        assert forall|k: Seq<u8>| #[trigger] self@.contains_key(k) implies exists|i: int|
            0 <= i < self.entries().len() && #[trigger] self.entries()[i].0 == k by {
            assert(content(s, t).contains_key(k));
            let i = choose|i: int| 0 <= i < inorder(s, t).len() && #[trigger] inorder(s, t)[i].0 == k;
            assert(self.entries()[i].0 == k);
        }
    }

    /// The tree stays balanced: a tree of height `h` holds at least
    /// `fib(h + 2) - 1` pairs (so `h` is below `1.45 log2(n + 2)` for `n`
    /// pairs), and at least `2^((h-1)/2)` of them when `h >= 1`.
    pub proof fn law_height_is_logarithmic(&self)
        requires
            self.wf(),
        ensures
            self.tree_height() >= 1 ==> dbl(((self.tree_height() - 1) / 2) as nat) <= self.entries().len(),
            fib(self.tree_height() + 2) <= self.entries().len() + 1,
            self.tree_height() <= 64,
    {
        lemma_balanced_size(self.shape@);
        lemma_balanced_fib(self.shape@);
        lemma_inorder_len(self.storage.slots(), self.shape@);
        lemma_height_bound(self.storage.slots(), self.shape@, self.root);
    }

    /// Deleting a key that an insertion has just added gives back the pairs
    /// from before the insertion, and the in-order walk lists them as before.
    pub proof fn law_delete_undoes_insert(
        before: &SovereignAVL,
        inserted: &SovereignAVL,
        deleted: &SovereignAVL,
        k: Seq<u8>,
        v: Seq<u8>,
    )
        requires
            before.wf(),
            deleted.wf(),
            !before@.contains_key(k),
            inserted@ == before@.insert(k, v),
            deleted@ == inserted@.remove(k),
        ensures
            deleted@ == before@,
            deleted.entries() == before.entries(),
    {
        assert(deleted@ =~= before@);
        lemma_inorder(before.storage.slots(), before.shape@);
        lemma_inorder(deleted.storage.slots(), deleted.shape@);
        lemma_sorted_listing_unique(deleted.entries(), before.entries(), before@);
    }
}

proof fn lemma_stored_height(s: Seq<NodeView>, t: Shape, idx: RawIndex)
    requires
        linked(s, t, idx),
        heights_ok(s, t),
    ensures
        stored_height(s, idx) == height(t),
        height(t) <= 100 ==> 0 <= stored_height(s, idx) <= 100,
{
    lemma_linked_live(s, t, idx);
}

/// A dump lists one line per node.
proof fn lemma_dump_len(s: Seq<NodeView>, t: Shape, depth: nat)
    ensures
        dump_lines(s, t, depth).len() == size(t),
    decreases t,
{
    match t {
        Shape::Nil => {},
        Shape::Bin(l, _, r) => {
            lemma_dump_len(s, *l, depth + 1);
            lemma_dump_len(s, *r, depth + 1);
        },
    }
}

proof fn lemma_inorder_len(s: Seq<NodeView>, t: Shape)
    ensures
        inorder(s, t).len() == size(t),
    decreases t,
{
    match t {
        Shape::Nil => {},
        Shape::Bin(l, _, r) => {
            lemma_inorder_len(s, *l);
            lemma_inorder_len(s, *r);
        },
    }
}

impl View for SovereignAVL {
    type V = Map<Seq<u8>, Seq<u8>>;

    /// The key/value pairs in the tree.
    closed spec fn view(&self) -> Map<Seq<u8>, Seq<u8>> {
        content(self.storage.slots(), self.shape@)
    }
}

} // verus!

use vstd::prelude::*;
use vstd::set_lib::*;
use crate::digest::node_digest;
use crate::keys::{key_lt, lemma_key_order, lemma_key_order_all};
use crate::storage::{is_live, NodeView, RawIndex, NULL_INDEX};

verus! {

/// The shape of a subtree: which arena slots it is made of and how they hang
/// together. It exists only for the proofs.
pub enum Shape {
    Nil,
    Bin(Box<Shape>, RawIndex, Box<Shape>),
}

pub open spec fn left_of(t: Shape) -> Shape {
    match t {
        Shape::Bin(l, _, _) => *l,
        Shape::Nil => Shape::Nil,
    }
}

pub open spec fn right_of(t: Shape) -> Shape {
    match t {
        Shape::Bin(_, _, r) => *r,
        Shape::Nil => Shape::Nil,
    }
}

pub open spec fn root_of(t: Shape) -> RawIndex {
    match t {
        Shape::Bin(_, id, _) => id,
        Shape::Nil => NULL_INDEX,
    }
}

pub open spec fn bin(l: Shape, id: RawIndex, r: Shape) -> Shape {
    Shape::Bin(Box::new(l), id, Box::new(r))
}

pub open spec fn height(t: Shape) -> nat
    decreases t,
{
    match t {
        Shape::Nil => 0,
        Shape::Bin(l, _, r) => {
            let hl = height(*l);
            let hr = height(*r);
            1 + if hl >= hr { hl } else { hr }
        },
    }
}

pub open spec fn size(t: Shape) -> nat
    decreases t,
{
    match t {
        Shape::Nil => 0,
        Shape::Bin(l, _, r) => 1 + size(*l) + size(*r),
    }
}

/// The arena slots that make up the subtree.
pub open spec fn ids(t: Shape) -> Set<int>
    decreases t,
{
    match t {
        Shape::Nil => Set::empty(),
        Shape::Bin(l, id, r) => ids(*l).union(ids(*r)).insert(id as int),
    }
}

/// No slot occurs twice in the subtree.
pub open spec fn distinct(t: Shape) -> bool
    decreases t,
{
    match t {
        Shape::Nil => true,
        Shape::Bin(l, id, r) => {
            &&& distinct(*l)
            &&& distinct(*r)
            &&& !ids(*l).contains(id as int)
            &&& !ids(*r).contains(id as int)
            &&& ids(*l).disjoint(ids(*r))
        },
    }
}

/// The child links stored in the arena, starting from index `idx`, trace
/// out exactly the shape `t`, through live slots only.
pub open spec fn linked(s: Seq<NodeView>, t: Shape, idx: RawIndex) -> bool
    decreases t,
{
    match t {
        Shape::Nil => idx == NULL_INDEX,
        Shape::Bin(l, id, r) => {
            &&& idx == id
            &&& is_live(s, id)
            &&& linked(s, *l, s[id as int].left)
            &&& linked(s, *r, s[id as int].right)
        },
    }
}

/// The key/value pairs stored in the subtree.
pub open spec fn content(s: Seq<NodeView>, t: Shape) -> Map<Seq<u8>, Seq<u8>>
    decreases t,
{
    match t {
        Shape::Nil => Map::empty(),
        Shape::Bin(l, id, r) => content(s, *l).union_prefer_right(content(s, *r)).insert(
            s[id as int].key,
            s[id as int].value,
        ),
    }
}

/// Search-tree order: every key of a left subtree sorts before the node's key,
/// every key of a right subtree after it.
pub open spec fn ordered(s: Seq<NodeView>, t: Shape) -> bool
    decreases t,
{
    match t {
        Shape::Nil => true,
        Shape::Bin(l, id, r) => {
            &&& ordered(s, *l)
            &&& ordered(s, *r)
            &&& forall|k: Seq<u8>| #[trigger]
                content(s, *l).contains_key(k) ==> key_lt(k, s[id as int].key)
            &&& forall|k: Seq<u8>| #[trigger]
                content(s, *r).contains_key(k) ==> key_lt(s[id as int].key, k)
        },
    }
}

/// Every node stores the true height of its subtree.
pub open spec fn heights_ok(s: Seq<NodeView>, t: Shape) -> bool
    decreases t,
{
    match t {
        Shape::Nil => true,
        Shape::Bin(l, id, r) => {
            &&& s[id as int].height == height(t)
            &&& heights_ok(s, *l)
            &&& heights_ok(s, *r)
        },
    }
}

/// The heights of the two children of every node differ by at most one.
pub open spec fn balanced(t: Shape) -> bool
    decreases t,
{
    match t {
        Shape::Nil => true,
        Shape::Bin(l, _, r) => {
            &&& balanced(*l)
            &&& balanced(*r)
            &&& height(*l) <= height(*r) + 1
            &&& height(*r) <= height(*l) + 1
        },
    }
}

/// A well-formed AVL subtree rooted at `idx`.
pub open spec fn sound(s: Seq<NodeView>, t: Shape, idx: RawIndex) -> bool {
    &&& linked(s, t, idx)
    &&& distinct(t)
    &&& ordered(s, t)
    &&& heights_ok(s, t)
    &&& balanced(t)
}

/// The stored digest of the child at index `c`, if there is a child.
pub open spec fn child_digest(s: Seq<NodeView>, c: RawIndex) -> Option<u64> {
    if c == NULL_INDEX {
        None
    } else {
        Some(s[c as int].hash)
    }
}

/// The digest that node `id` should carry, given its contents and the digests
/// its children carry.
pub open spec fn expected_digest(s: Seq<NodeView>, id: RawIndex) -> u64 {
    node_digest(
        s[id as int].key,
        s[id as int].value,
        child_digest(s, s[id as int].left),
        child_digest(s, s[id as int].right),
    )
}

/// Node `id` carries the digest of its contents and its children's digests.
pub open spec fn digest_ok(s: Seq<NodeView>, id: RawIndex) -> bool {
    s[id as int].hash == expected_digest(s, id)
}

/// Every node of the subtree carries a correct digest.
pub open spec fn digests_ok(s: Seq<NodeView>, t: Shape) -> bool
    decreases t,
{
    match t {
        Shape::Nil => true,
        Shape::Bin(l, id, r) => {
            &&& digest_ok(s, id)
            &&& digests_ok(s, *l)
            &&& digests_ok(s, *r)
        },
    }
}

/// Slots `i` of `s1` that belong to `t` are the same in `s2`.
pub open spec fn agree_on(s1: Seq<NodeView>, s2: Seq<NodeView>, t: Shape) -> bool {
    forall|i: int| #[trigger] ids(t).contains(i) ==> 0 <= i < s2.len() && s2[i] == s1[i]
}

pub proof fn lemma_ids_finite(t: Shape)
    ensures
        ids(t).finite(),
        distinct(t) ==> ids(t).len() == size(t),
    decreases t,
{
    match t {
        Shape::Nil => {},
        Shape::Bin(l, id, r) => {
            lemma_ids_finite(*l);
            lemma_ids_finite(*r);
            if distinct(t) {
                lemma_set_disjoint_lens(ids(*l), ids(*r));
            }
        },
    }
}

/// A linked subtree only uses live slots.
pub proof fn lemma_linked_live(s: Seq<NodeView>, t: Shape, idx: RawIndex)
    requires
        linked(s, t, idx),
    ensures
        forall|i: int| #[trigger] ids(t).contains(i) ==> 0 <= i < s.len() && i != NULL_INDEX
            && s[i].is_active,
        t is Nil <==> idx == NULL_INDEX,
        t is Bin ==> root_of(t) == idx && is_live(s, idx),
    decreases t,
{
    match t {
        Shape::Nil => {
            assert(ids(t) =~= Set::<int>::empty());
        },
        Shape::Bin(l, id, r) => {
            lemma_linked_live(s, *l, s[id as int].left);
            lemma_linked_live(s, *r, s[id as int].right);
            assert forall|i: int| #[trigger] ids(t).contains(i) implies 0 <= i < s.len() && i != NULL_INDEX
                && s[i].is_active by {
                if i != id as int {
                    if ids(*l).contains(i) {
                    } else {
                        assert(ids(*r).contains(i));
                    }
                }
            }
        },
    }
}

pub proof fn lemma_root_in_ids(t: Shape)
    requires
        t is Bin,
    ensures
        ids(t).contains(root_of(t) as int),
{
}

proof fn lemma_agree_children(s1: Seq<NodeView>, s2: Seq<NodeView>, t: Shape)
    requires
        t is Bin,
        agree_on(s1, s2, t),
    ensures
        agree_on(s1, s2, left_of(t)),
        agree_on(s1, s2, right_of(t)),
        0 <= root_of(t) < s2.len(),
        s2[root_of(t) as int] == s1[root_of(t) as int],
{
    let l = left_of(t);
    let r = right_of(t);
    assert(ids(t).contains(root_of(t) as int));
    assert forall|i: int| #[trigger] ids(l).contains(i) implies 0 <= i < s2.len() && s2[i] == s1[i] by {
        assert(ids(t).contains(i));
    }
    assert forall|i: int| #[trigger] ids(r).contains(i) implies 0 <= i < s2.len() && s2[i] == s1[i] by {
        assert(ids(t).contains(i));
    }
}

proof fn lemma_frame_linked(s1: Seq<NodeView>, s2: Seq<NodeView>, t: Shape, idx: RawIndex)
    requires
        linked(s1, t, idx),
        agree_on(s1, s2, t),
    ensures
        linked(s2, t, idx),
    decreases t,
{
    match t {
        Shape::Nil => {},
        Shape::Bin(l, id, r) => {
            lemma_agree_children(s1, s2, t);
            lemma_frame_linked(s1, s2, *l, s1[id as int].left);
            lemma_frame_linked(s1, s2, *r, s1[id as int].right);
        },
    }
}

proof fn lemma_frame_content(s1: Seq<NodeView>, s2: Seq<NodeView>, t: Shape)
    requires
        agree_on(s1, s2, t),
    ensures
        content(s2, t) == content(s1, t),
    decreases t,
{
    match t {
        Shape::Nil => {},
        Shape::Bin(l, id, r) => {
            lemma_agree_children(s1, s2, t);
            lemma_frame_content(s1, s2, *l);
            lemma_frame_content(s1, s2, *r);
        },
    }
}

proof fn lemma_frame_ordered(s1: Seq<NodeView>, s2: Seq<NodeView>, t: Shape)
    requires
        agree_on(s1, s2, t),
    ensures
        ordered(s2, t) == ordered(s1, t),
    decreases t,
{
    match t {
        Shape::Nil => {},
        Shape::Bin(l, id, r) => {
            lemma_agree_children(s1, s2, t);
            lemma_frame_content(s1, s2, *l);
            lemma_frame_content(s1, s2, *r);
            lemma_frame_ordered(s1, s2, *l);
            lemma_frame_ordered(s1, s2, *r);
        },
    }
}

proof fn lemma_frame_heights(s1: Seq<NodeView>, s2: Seq<NodeView>, t: Shape)
    requires
        agree_on(s1, s2, t),
    ensures
        heights_ok(s2, t) == heights_ok(s1, t),
    decreases t,
{
    match t {
        Shape::Nil => {},
        Shape::Bin(l, id, r) => {
            lemma_agree_children(s1, s2, t);
            lemma_frame_heights(s1, s2, *l);
            lemma_frame_heights(s1, s2, *r);
        },
    }
}

proof fn lemma_frame_digests(s1: Seq<NodeView>, s2: Seq<NodeView>, t: Shape, idx: RawIndex)
    requires
        linked(s1, t, idx),
        agree_on(s1, s2, t),
    ensures
        digests_ok(s2, t) == digests_ok(s1, t),
    decreases t,
{
    match t {
        Shape::Nil => {},
        Shape::Bin(l, id, r) => {
            lemma_agree_children(s1, s2, t);
            lemma_frame_digests(s1, s2, *l, s1[id as int].left);
            lemma_frame_digests(s1, s2, *r, s1[id as int].right);
            lemma_linked_live(s1, *l, s1[id as int].left);
            lemma_linked_live(s1, *r, s1[id as int].right);
            let n = s1[id as int];
            if n.left != NULL_INDEX {
                lemma_root_in_ids(*l);
                assert(ids(t).contains(n.left as int));
            }
            if n.right != NULL_INDEX {
                lemma_root_in_ids(*r);
                assert(ids(t).contains(n.right as int));
            }
        },
    }
}

/// What the subtree says depends only on its own slots.
pub proof fn lemma_frame(s1: Seq<NodeView>, s2: Seq<NodeView>, t: Shape, idx: RawIndex)
    requires
        linked(s1, t, idx),
        agree_on(s1, s2, t),
    ensures
        linked(s2, t, idx),
        content(s2, t) == content(s1, t),
        ordered(s2, t) == ordered(s1, t),
        heights_ok(s2, t) == heights_ok(s1, t),
        digests_ok(s2, t) == digests_ok(s1, t),
{
    lemma_frame_linked(s1, s2, t, idx);
    lemma_frame_content(s1, s2, t);
    lemma_frame_ordered(s1, s2, t);
    lemma_frame_heights(s1, s2, t);
    lemma_frame_digests(s1, s2, t, idx);
}

/// The single right rotation of `bin(bin(a, x, b), y, c)` keeps the pairs and
/// the search order, when the slots of `a`, `b` and `c` and the payloads of `x`
/// and `y` are unchanged.
pub proof fn lemma_rotate_right_keys(
    s: Seq<NodeView>,
    s2: Seq<NodeView>,
    a: Shape,
    x: RawIndex,
    b: Shape,
    y: RawIndex,
    c: Shape,
)
    requires
        ordered(s, bin(bin(a, x, b), y, c)),
        agree_on(s, s2, a),
        agree_on(s, s2, b),
        agree_on(s, s2, c),
        x < s.len(),
        y < s.len(),
        s2.len() == s.len(),
        s2[x as int].key == s[x as int].key,
        s2[x as int].value == s[x as int].value,
        s2[y as int].key == s[y as int].key,
        s2[y as int].value == s[y as int].value,
    ensures
        content(s2, bin(a, x, bin(b, y, c))) == content(s, bin(bin(a, x, b), y, c)),
        ordered(s2, bin(a, x, bin(b, y, c))),
{
    lemma_frame_content(s, s2, a);
    lemma_frame_content(s, s2, b);
    lemma_frame_content(s, s2, c);
    lemma_frame_ordered(s, s2, a);
    lemma_frame_ordered(s, s2, b);
    lemma_frame_ordered(s, s2, c);
    let kx = s[x as int].key;
    let ky = s[y as int].key;
    let inner = bin(a, x, b);
    assert(ordered(s, inner));
    assert(ordered(s, a) && ordered(s, b) && ordered(s, c));
    assert(content(s, inner).contains_key(kx));
    assert(key_lt(kx, ky));
    assert forall|k: Seq<u8>| #[trigger] content(s, b).contains_key(k) implies key_lt(k, ky) by {
        assert(content(s, inner).contains_key(k));
    }
    assert forall|k: Seq<u8>| #[trigger] content(s, a).contains_key(k) implies key_lt(k, ky) by {
        assert(content(s, inner).contains_key(k));
    }
    assert forall|k: Seq<u8>| #[trigger] content(s, c).contains_key(k) implies key_lt(kx, k) by {
        lemma_key_order(kx, ky, k);
    }
    let t2r = bin(b, y, c);
    assert(ordered(s2, t2r));
    assert forall|k: Seq<u8>| #[trigger] content(s2, t2r).contains_key(k) implies key_lt(kx, k) by {
        if k != ky {
            if content(s, b).contains_key(k) {
            } else {
                assert(content(s, c).contains_key(k));
            }
        }
    }
    assert(ordered(s2, bin(a, x, t2r)));
    lemma_key_order_all();
    let ca = content(s, a);
    let cb = content(s, b);
    let cc = content(s, c);
    let vx = s[x as int].value;
    let vy = s[y as int].value;
    assert(content(s, inner) == ca.union_prefer_right(cb).insert(kx, vx));
    assert(content(s, bin(inner, y, c)) == content(s, inner).union_prefer_right(cc).insert(ky, vy));
    assert(content(s2, t2r) == cb.union_prefer_right(cc).insert(ky, vy));
    assert(content(s2, bin(a, x, t2r)) == ca.union_prefer_right(content(s2, t2r)).insert(kx, vx));
    assert forall|k: Seq<u8>| ca.contains_key(k) implies !cb.contains_key(k) && !cc.contains_key(k) && k != ky && k != kx by {
        lemma_key_order(k, kx, ky);
        if cb.contains_key(k) {
            lemma_key_order(k, kx, k);
        }
        if cc.contains_key(k) {
            lemma_key_order(k, ky, k);
        }
    }
    assert forall|k: Seq<u8>| cb.contains_key(k) implies !cc.contains_key(k) && k != ky && k != kx by {
        lemma_key_order(kx, k, ky);
        if cc.contains_key(k) {
            lemma_key_order(k, ky, k);
        }
    }
    assert forall|k: Seq<u8>| cc.contains_key(k) implies k != ky && k != kx by {
        lemma_key_order(kx, ky, k);
    }
    assert(content(s2, bin(a, x, t2r)) =~= content(s, bin(inner, y, c)));
}

/// The single left rotation of `bin(a, x, bin(b, y, c))` keeps the pairs and
/// the search order, when the slots of `a`, `b` and `c` and the payloads of `x`
/// and `y` are unchanged.
pub proof fn lemma_rotate_left_keys(
    s: Seq<NodeView>,
    s2: Seq<NodeView>,
    a: Shape,
    x: RawIndex,
    b: Shape,
    y: RawIndex,
    c: Shape,
)
    requires
        ordered(s, bin(a, x, bin(b, y, c))),
        agree_on(s, s2, a),
        agree_on(s, s2, b),
        agree_on(s, s2, c),
        x < s.len(),
        y < s.len(),
        s2.len() == s.len(),
        s2[x as int].key == s[x as int].key,
        s2[x as int].value == s[x as int].value,
        s2[y as int].key == s[y as int].key,
        s2[y as int].value == s[y as int].value,
    ensures
        content(s2, bin(bin(a, x, b), y, c)) == content(s, bin(a, x, bin(b, y, c))),
        ordered(s2, bin(bin(a, x, b), y, c)),
{
    lemma_frame_content(s, s2, a);
    lemma_frame_content(s, s2, b);
    lemma_frame_content(s, s2, c);
    lemma_frame_ordered(s, s2, a);
    lemma_frame_ordered(s, s2, b);
    lemma_frame_ordered(s, s2, c);
    let kx = s[x as int].key;
    let ky = s[y as int].key;
    let inner = bin(b, y, c);
    assert(ordered(s, inner));
    assert(ordered(s, a) && ordered(s, b) && ordered(s, c));
    assert(content(s, inner).contains_key(ky));
    assert(key_lt(kx, ky));
    assert forall|k: Seq<u8>| #[trigger] content(s, b).contains_key(k) implies key_lt(kx, k) by {
        assert(content(s, inner).contains_key(k));
    }
    assert forall|k: Seq<u8>| #[trigger] content(s, c).contains_key(k) implies key_lt(kx, k) by {
        assert(content(s, inner).contains_key(k));
    }
    assert forall|k: Seq<u8>| #[trigger] content(s, a).contains_key(k) implies key_lt(k, ky) by {
        lemma_key_order(k, kx, ky);
    }
    let t2l = bin(a, x, b);
    assert(ordered(s2, t2l));
    assert forall|k: Seq<u8>| #[trigger] content(s2, t2l).contains_key(k) implies key_lt(k, ky) by {
        if k != kx {
            if content(s, a).contains_key(k) {
            } else {
                assert(content(s, b).contains_key(k));
            }
        }
    }
    assert(ordered(s2, bin(t2l, y, c)));
    lemma_key_order_all();
    let ca = content(s, a);
    let cb = content(s, b);
    let cc = content(s, c);
    let vx = s[x as int].value;
    let vy = s[y as int].value;
    assert(content(s, inner) == cb.union_prefer_right(cc).insert(ky, vy));
    assert(content(s, bin(a, x, inner)) == ca.union_prefer_right(content(s, inner)).insert(kx, vx));
    assert(content(s2, t2l) == ca.union_prefer_right(cb).insert(kx, vx));
    assert(content(s2, bin(t2l, y, c)) == content(s2, t2l).union_prefer_right(cc).insert(ky, vy));
    assert forall|k: Seq<u8>| ca.contains_key(k) implies !cb.contains_key(k) && !cc.contains_key(k) && k != ky && k != kx by {
        lemma_key_order(k, kx, ky);
        if cb.contains_key(k) {
            lemma_key_order(k, kx, k);
        }
        if cc.contains_key(k) {
            lemma_key_order(k, kx, k);
        }
    }
    assert forall|k: Seq<u8>| cb.contains_key(k) implies !cc.contains_key(k) && k != ky && k != kx by {
        lemma_key_order(kx, k, ky);
        if cc.contains_key(k) {
            lemma_key_order(k, ky, k);
        }
    }
    assert forall|k: Seq<u8>| cc.contains_key(k) implies k != ky && k != kx by {
        lemma_key_order(kx, ky, k);
    }
    assert(content(s2, bin(t2l, y, c)) =~= content(s, bin(a, x, inner)));
}

/// The slot facts shared by `bin(bin(a, x, b), y, c)` and
/// `bin(a, x, bin(b, y, c))`: when either has no repeated slot, neither has.
pub proof fn lemma_distinct_rotation(a: Shape, x: RawIndex, b: Shape, y: RawIndex, c: Shape)
    requires
        distinct(bin(bin(a, x, b), y, c)) || distinct(bin(a, x, bin(b, y, c))),
    ensures
        distinct(bin(bin(a, x, b), y, c)),
        distinct(bin(a, x, bin(b, y, c))),
        distinct(bin(a, x, b)),
        distinct(bin(b, y, c)),
        distinct(a),
        distinct(b),
        distinct(c),
        x != y,
        !ids(a).contains(x as int),
        !ids(a).contains(y as int),
        !ids(b).contains(x as int),
        !ids(b).contains(y as int),
        !ids(c).contains(x as int),
        !ids(c).contains(y as int),
        ids(a).disjoint(ids(b)),
        ids(a).disjoint(ids(c)),
        ids(b).disjoint(ids(c)),
        ids(bin(bin(a, x, b), y, c)) == ids(bin(a, x, bin(b, y, c))),
{
    let l = bin(a, x, b);
    let r = bin(b, y, c);
    assert(ids(l) == ids(a).union(ids(b)).insert(x as int));
    assert(ids(r) == ids(b).union(ids(c)).insert(y as int));
    assert(ids(bin(l, y, c)) == ids(l).union(ids(c)).insert(y as int));
    assert(ids(bin(a, x, r)) == ids(a).union(ids(r)).insert(x as int));
    if distinct(bin(l, y, c)) {
        assert(distinct(l));
        assert(ids(l).contains(x as int));
        assert(ids(a).disjoint(ids(c))) by {
            assert forall|i: int| ids(a).contains(i) implies !ids(c).contains(i) by {
                assert(ids(l).contains(i));
            }
        }
        assert(ids(b).disjoint(ids(c))) by {
            assert forall|i: int| ids(b).contains(i) implies !ids(c).contains(i) by {
                assert(ids(l).contains(i));
            }
        }
    } else {
        assert(distinct(r));
        assert(ids(r).contains(y as int));
        assert(ids(a).disjoint(ids(b))) by {
            assert forall|i: int| ids(a).contains(i) implies !ids(b).contains(i) by {
                if ids(b).contains(i) {
                    assert(ids(r).contains(i));
                }
            }
        }
        assert(ids(a).disjoint(ids(c))) by {
            assert forall|i: int| ids(a).contains(i) implies !ids(c).contains(i) by {
                if ids(c).contains(i) {
                    assert(ids(r).contains(i));
                }
            }
        }
    }
    assert(ids(bin(l, y, c)) =~= ids(bin(a, x, r)));
    assert(distinct(l));
    assert(distinct(r));
}

/// `s1` and `s2` have the same length and differ at most in slots `x` and `y`.
pub open spec fn unchanged_except(s1: Seq<NodeView>, s2: Seq<NodeView>, x: int, y: int) -> bool {
    &&& s2.len() == s1.len()
    &&& forall|i: int| 0 <= i < s1.len() && i != x && i != y ==> #[trigger] s2[i] == s1[i]
}

pub proof fn lemma_agree_except(s1: Seq<NodeView>, s2: Seq<NodeView>, t: Shape, idx: RawIndex, x: int, y: int)
    requires
        linked(s1, t, idx),
        unchanged_except(s1, s2, x, y),
        !ids(t).contains(x),
        !ids(t).contains(y),
    ensures
        agree_on(s1, s2, t),
{
    lemma_linked_live(s1, t, idx);
}

/// After an insertion of `k` made the subtree one level higher, the new root
/// is a fresh leaf, or `k` went to its strictly higher side.
pub open spec fn grown_toward(s: Seq<NodeView>, t: Shape, k: Seq<u8>) -> bool {
    ||| height(t) == 1
    ||| key_lt(k, s[root_of(t) as int].key) && height(left_of(t)) == height(right_of(t)) + 1
    ||| key_lt(s[root_of(t) as int].key, k) && height(right_of(t)) == height(left_of(t)) + 1
}

/// Slots of `s` outside `changed` are the same in `s2`, which is no shorter.
pub open spec fn frame_outside(s: Seq<NodeView>, s2: Seq<NodeView>, changed: Set<int>) -> bool {
    &&& s.len() <= s2.len()
    &&& forall|i: int| 0 <= i < s.len() && !changed.contains(i) ==> #[trigger] s2[i] == s[i]
}

/// What an insertion of `key`/`value` into the subtree `t` of `s` leaves
/// behind: the subtree `t2` of `s2` at `idx2`, built from the old slots and
/// the new slot `slot`.
pub open spec fn insert_post(
    s: Seq<NodeView>,
    t: Shape,
    s2: Seq<NodeView>,
    t2: Shape,
    idx2: RawIndex,
    key: Seq<u8>,
    value: Seq<u8>,
    slot: int,
) -> bool {
    &&& sound(s2, t2, idx2)
    &&& content(s2, t2) == content(s, t).insert(key, value)
    &&& ids(t2) == ids(t).insert(slot)
    &&& height(t2) == height(t) || height(t2) == height(t) + 1
    &&& height(t2) == height(t) + 1 ==> grown_toward(s2, t2, key)
    &&& digests_ok(s, t) ==> digests_ok(s2, t2)
    &&& frame_outside(s, s2, ids(t2))
}

/// Hanging the result `nl` of an insertion into the left subtree of `t` back
/// under the root of `t` gives the pairs of `t` plus the new one, in order.
pub proof fn lemma_attach_left(
    s: Seq<NodeView>,
    t: Shape,
    s1: Seq<NodeView>,
    nl: Shape,
    nlidx: RawIndex,
    k: Seq<u8>,
    v: Seq<u8>,
    slot: int,
    s3: Seq<NodeView>,
)
    requires
        t is Bin,
        sound(s, t, root_of(t)),
        key_lt(k, s[root_of(t) as int].key),
        insert_post(s, left_of(t), s1, nl, nlidx, k, v, slot),
        !ids(t).contains(slot),
        unchanged_except(s1, s3, root_of(t) as int, root_of(t) as int),
        s3[root_of(t) as int].left == nlidx,
        s3[root_of(t) as int].right == s[root_of(t) as int].right,
        same_payload_view(s3[root_of(t) as int], s[root_of(t) as int]),
        s3[root_of(t) as int].height == height(bin(nl, root_of(t), right_of(t))),
        digest_ok(s3, root_of(t)),
    ensures
        ({
            let ct = bin(nl, root_of(t), right_of(t));
            &&& linked(s3, ct, root_of(t))
            &&& distinct(ct)
            &&& ordered(s3, ct)
            &&& heights_ok(s3, ct)
            &&& balanced(nl)
            &&& balanced(right_of(t))
            &&& content(s3, ct) == content(s, t).insert(k, v)
            &&& ids(ct) == ids(t).insert(slot)
            &&& frame_outside(s, s3, ids(ct))
            &&& (digests_ok(s, t) ==> digests_ok(s3, ct))
        }),
{
    let id = root_of(t);
    let l = left_of(t);
    let r = right_of(t);
    let ct = bin(nl, id, r);
    assert(t == bin(l, id, r));
    lemma_linked_live(s, t, id);
    lemma_linked_live(s, r, s[id as int].right);
    lemma_linked_live(s1, nl, nlidx);
    assert(ids(t).contains(id as int));
    assert(!ids(l).contains(id as int));
    assert(!ids(nl).contains(id as int));
    // the right subtree did not move
    assert forall|i: int| #[trigger] ids(r).contains(i) implies 0 <= i < s3.len() && s3[i] == s[i] by {
        assert(ids(t).contains(i));
        assert(!ids(l).contains(i));
        assert(!ids(nl).contains(i));
    }
    assert(agree_on(s, s3, r));
    lemma_frame(s, s3, r, s[id as int].right);
    // the new left subtree did not move since the insertion
    assert(agree_on(s1, s3, nl));
    lemma_frame(s1, s3, nl, nlidx);
    assert(linked(s3, ct, id));
    assert(ids(ct) =~= ids(t).insert(slot));
    assert(distinct(ct)) by {
        assert forall|i: int| ids(nl).contains(i) implies !ids(r).contains(i) by {
            if i != slot {
                assert(ids(l).contains(i));
            }
        }
    }
    lemma_key_order_all();
    let kid = s[id as int].key;
    assert forall|q: Seq<u8>| #[trigger] content(s3, nl).contains_key(q) implies key_lt(q, s3[id as int].key) by {
        if q != k {
            assert(content(s, l).contains_key(q));
        }
    }
    assert(ordered(s3, ct));
    assert(heights_ok(s3, ct));
    assert(!content(s, r).contains_key(k));
    assert(content(s, t) == content(s, l).union_prefer_right(content(s, r)).insert(kid, s[id as int].value));
    assert(content(s3, ct) =~= content(s, t).insert(k, v));
    assert forall|i: int| 0 <= i < s.len() && !ids(ct).contains(i) implies #[trigger] s3[i] == s[i] by {
        assert(!ids(nl).contains(i));
    }
    if digests_ok(s, t) {
        assert(digests_ok(s, l));
        assert(digests_ok(s3, ct));
    }
}

/// Hanging the result `nr` of an insertion into the right subtree of `t` back
/// under the root of `t` gives the pairs of `t` plus the new one, in order.
pub proof fn lemma_attach_right(
    s: Seq<NodeView>,
    t: Shape,
    s1: Seq<NodeView>,
    nr: Shape,
    nridx: RawIndex,
    k: Seq<u8>,
    v: Seq<u8>,
    slot: int,
    s3: Seq<NodeView>,
)
    requires
        t is Bin,
        sound(s, t, root_of(t)),
        key_lt(s[root_of(t) as int].key, k),
        insert_post(s, right_of(t), s1, nr, nridx, k, v, slot),
        !ids(t).contains(slot),
        unchanged_except(s1, s3, root_of(t) as int, root_of(t) as int),
        s3[root_of(t) as int].right == nridx,
        s3[root_of(t) as int].left == s[root_of(t) as int].left,
        same_payload_view(s3[root_of(t) as int], s[root_of(t) as int]),
        s3[root_of(t) as int].height == height(bin(left_of(t), root_of(t), nr)),
        digest_ok(s3, root_of(t)),
    ensures
        ({
            let ct = bin(left_of(t), root_of(t), nr);
            &&& linked(s3, ct, root_of(t))
            &&& distinct(ct)
            &&& ordered(s3, ct)
            &&& heights_ok(s3, ct)
            &&& balanced(nr)
            &&& balanced(left_of(t))
            &&& content(s3, ct) == content(s, t).insert(k, v)
            &&& ids(ct) == ids(t).insert(slot)
            &&& frame_outside(s, s3, ids(ct))
            &&& (digests_ok(s, t) ==> digests_ok(s3, ct))
        }),
{
    let id = root_of(t);
    let l = left_of(t);
    let r = right_of(t);
    let ct = bin(l, id, nr);
    assert(t == bin(l, id, r));
    lemma_linked_live(s, t, id);
    lemma_linked_live(s, l, s[id as int].left);
    lemma_linked_live(s1, nr, nridx);
    assert(ids(t).contains(id as int));
    assert(!ids(r).contains(id as int));
    assert(!ids(nr).contains(id as int));
    assert forall|i: int| #[trigger] ids(l).contains(i) implies 0 <= i < s3.len() && s3[i] == s[i] by {
        assert(ids(t).contains(i));
        assert(!ids(r).contains(i));
        assert(!ids(nr).contains(i));
    }
    assert(agree_on(s, s3, l));
    lemma_frame(s, s3, l, s[id as int].left);
    assert(agree_on(s1, s3, nr));
    lemma_frame(s1, s3, nr, nridx);
    assert(linked(s3, ct, id));
    assert(ids(ct) =~= ids(t).insert(slot));
    assert(distinct(ct)) by {
        assert forall|i: int| ids(l).contains(i) implies !ids(nr).contains(i) by {
            if ids(nr).contains(i) && i != slot {
                assert(ids(r).contains(i));
            }
        }
    }
    lemma_key_order_all();
    let kid = s[id as int].key;
    assert forall|q: Seq<u8>| #[trigger] content(s3, nr).contains_key(q) implies key_lt(s3[id as int].key, q) by {
        if q != k {
            assert(content(s, r).contains_key(q));
        }
    }
    assert(ordered(s3, ct));
    assert(heights_ok(s3, ct));
    assert(!content(s, l).contains_key(k));
    assert(content(s, t) == content(s, l).union_prefer_right(content(s, r)).insert(kid, s[id as int].value));
    assert(content(s3, ct) =~= content(s, t).insert(k, v));
    assert forall|i: int| 0 <= i < s.len() && !ids(ct).contains(i) implies #[trigger] s3[i] == s[i] by {
        assert(!ids(nr).contains(i));
    }
    if digests_ok(s, t) {
        assert(digests_ok(s, r));
        assert(digests_ok(s3, ct));
    }
}

/// Key and value, liveness and generation of a slot are the same in both.
pub open spec fn same_payload_view(a: NodeView, b: NodeView) -> bool {
    &&& a.key == b.key
    &&& a.value == b.value
    &&& a.is_active == b.is_active
    &&& a.generation == b.generation
    &&& a.parent == b.parent
}

/// A key below the root's key is in the tree exactly when it is in the left
/// subtree; a key above it, exactly when it is in the right subtree.
pub proof fn lemma_content_side(s: Seq<NodeView>, t: Shape, k: Seq<u8>)
    requires
        t is Bin,
        ordered(s, t),
    ensures
        key_lt(k, s[root_of(t) as int].key) ==> (content(s, t).contains_key(k) == content(
            s,
            left_of(t),
        ).contains_key(k)) && (content(s, t).contains_key(k) ==> content(s, t)[k] == content(s, left_of(t))[k]),
        key_lt(s[root_of(t) as int].key, k) ==> (content(s, t).contains_key(k) == content(
            s,
            right_of(t),
        ).contains_key(k)) && (content(s, t).contains_key(k) ==> content(s, t)[k] == content(s, right_of(t))[k]),
        content(s, t).contains_key(s[root_of(t) as int].key),
        content(s, t)[s[root_of(t) as int].key] == s[root_of(t) as int].value,
{
    lemma_key_order_all();
    let kid = s[root_of(t) as int].key;
    if key_lt(k, kid) {
        if content(s, right_of(t)).contains_key(k) {
            assert(key_lt(kid, k));
        }
    }
    if key_lt(kid, k) {
        if content(s, left_of(t)).contains_key(k) {
            assert(key_lt(k, kid));
        }
    }
}

/// Where an insertion stands once the new subtree hangs under the old root
/// `root_of(t)`, before any rebalancing: `ct` is `t` with one side replaced
/// by the result of the insertion into that side.
pub open spec fn insert_mid(
    s: Seq<NodeView>,
    t: Shape,
    s3: Seq<NodeView>,
    ct: Shape,
    k: Seq<u8>,
    v: Seq<u8>,
    slot: int,
) -> bool {
    let kid = s[root_of(t) as int].key;
    &&& t is Bin
    &&& ct is Bin
    &&& root_of(ct) == root_of(t)
    &&& linked(s3, ct, root_of(t))
    &&& distinct(ct)
    &&& ordered(s3, ct)
    &&& heights_ok(s3, ct)
    &&& balanced(left_of(ct))
    &&& balanced(right_of(ct))
    &&& balanced(left_of(t))
    &&& balanced(right_of(t))
    &&& height(left_of(t)) <= height(right_of(t)) + 1
    &&& height(right_of(t)) <= height(left_of(t)) + 1
    &&& s3[root_of(t) as int].key == kid
    &&& content(s3, ct) == content(s, t).insert(k, v)
    &&& ids(ct) == ids(t).insert(slot)
    &&& frame_outside(s, s3, ids(ct))
    &&& (digests_ok(s, t) ==> digests_ok(s3, ct))
    &&& ({
        ||| key_lt(k, kid) && right_of(ct) == right_of(t) && (height(left_of(ct)) == height(left_of(t)) || (
        height(left_of(ct)) == height(left_of(t)) + 1 && grown_toward(s3, left_of(ct), k)))
        ||| key_lt(kid, k) && left_of(ct) == left_of(t) && (height(right_of(ct)) == height(right_of(t)) || (
        height(right_of(ct)) == height(right_of(t)) + 1 && grown_toward(s3, right_of(ct), k)))
    })
}

/// The children of every node of a linked subtree are absent or live.
pub proof fn lemma_children_live(s: Seq<NodeView>, t: Shape, idx: RawIndex, i: int)
    requires
        linked(s, t, idx),
        ids(t).contains(i),
    ensures
        s[i].left == NULL_INDEX || is_live(s, s[i].left),
        s[i].right == NULL_INDEX || is_live(s, s[i].right),
    decreases t,
{
    match t {
        Shape::Nil => {},
        Shape::Bin(l, id, r) => {
            lemma_linked_live(s, *l, s[id as int].left);
            lemma_linked_live(s, *r, s[id as int].right);
            if i != id as int {
                if ids(*l).contains(i) {
                    lemma_children_live(s, *l, s[id as int].left, i);
                } else {
                    lemma_children_live(s, *r, s[id as int].right, i);
                }
            }
        },
    }
}

/// The first node on the search path for `k` whose digest is wrong.
pub open spec fn path_violation(s: Seq<NodeView>, t: Shape, k: Seq<u8>) -> Option<RawIndex>
    decreases t,
{
    match t {
        Shape::Nil => None,
        Shape::Bin(l, id, r) => {
            if !digest_ok(s, id) {
                Some(id)
            } else if key_lt(k, s[id as int].key) {
                path_violation(s, *l, k)
            } else if key_lt(s[id as int].key, k) {
                path_violation(s, *r, k)
            } else {
                None
            }
        },
    }
}

/// The first node, in pre-order (node, left subtree, right subtree), whose
/// digest is wrong.
pub open spec fn audit_violation(s: Seq<NodeView>, t: Shape) -> Option<RawIndex>
    decreases t,
{
    match t {
        Shape::Nil => None,
        Shape::Bin(l, id, r) => {
            if !digest_ok(s, id) {
                Some(id)
            } else if audit_violation(s, *l) is Some {
                audit_violation(s, *l)
            } else {
                audit_violation(s, *r)
            }
        },
    }
}

/// With every digest correct there is nothing for a search or an audit to
/// report, and an audit reports nothing only then.
pub proof fn lemma_no_violation(s: Seq<NodeView>, t: Shape, k: Seq<u8>)
    ensures
        digests_ok(s, t) ==> path_violation(s, t, k) is None,
        digests_ok(s, t) ==> spine_violation(s, t) is None,
        digests_ok(s, t) ==> delete_violation(s, t, k) is None,
        digests_ok(s, t) <==> audit_violation(s, t) is None,
    decreases t,
{
    match t {
        Shape::Nil => {},
        Shape::Bin(l, id, r) => {
            lemma_no_violation(s, *l, k);
            lemma_no_violation(s, *r, k);
        },
    }
}

/// The leftmost node of a subtree: the one holding the least key.
pub open spec fn leftmost(t: Shape) -> RawIndex
    decreases t,
{
    match t {
        Shape::Nil => NULL_INDEX,
        Shape::Bin(l, id, _) => if *l is Nil {
            id
        } else {
            leftmost(*l)
        },
    }
}

/// The leftmost node of an ordered subtree holds its least key.
pub proof fn lemma_leftmost_min(s: Seq<NodeView>, t: Shape, idx: RawIndex)
    requires
        t is Bin,
        linked(s, t, idx),
        ordered(s, t),
    ensures
        ids(t).contains(leftmost(t) as int),
        content(s, t).contains_key(s[leftmost(t) as int].key),
        content(s, t)[s[leftmost(t) as int].key] == s[leftmost(t) as int].value,
        forall|k: Seq<u8>| #[trigger] content(s, t).contains_key(k) ==> k == s[leftmost(t) as int].key
            || key_lt(s[leftmost(t) as int].key, k),
    decreases t,
{
    lemma_key_order_all();
    let l = left_of(t);
    let id = root_of(t);
    assert(linked(s, l, s[id as int].left));
    lemma_content_side(s, t, s[id as int].key);
    assert(content(s, t) == content(s, l).union_prefer_right(content(s, right_of(t))).insert(
        s[id as int].key,
        s[id as int].value,
    ));
    if l is Nil {
        assert(content(s, l) == Map::<Seq<u8>, Seq<u8>>::empty());
        assert(leftmost(t) == id);
        assert forall|k: Seq<u8>| #[trigger] content(s, t).contains_key(k) implies k == s[id as int].key
            || key_lt(s[id as int].key, k) by {
            if k != s[id as int].key {
                assert(content(s, right_of(t)).contains_key(k));
            }
        }
    } else {
        lemma_leftmost_min(s, l, s[id as int].left);
        let m = s[leftmost(t) as int].key;
        lemma_content_side(s, t, m);
        assert forall|k: Seq<u8>| #[trigger] content(s, t).contains_key(k) implies k == m || key_lt(m, k) by {
            if content(s, l).contains_key(k) {
            } else if k == s[id as int].key {
            } else {
                assert(content(s, right_of(t)).contains_key(k));
            }
        }
    }
}

/// The first node with a wrong digest on the left spine of the subtree, from
/// its root down to its leftmost node.
pub open spec fn spine_violation(s: Seq<NodeView>, t: Shape) -> Option<RawIndex>
    decreases t,
{
    match t {
        Shape::Nil => None,
        Shape::Bin(l, id, _) => if !digest_ok(s, id) {
            Some(id)
        } else {
            spine_violation(s, *l)
        },
    }
}

/// The first node with a wrong digest among those a deletion of `k` reads:
/// the search path down to `k`, and, where `k`'s node has two children, the
/// left spine of its right subtree, which leads to its successor.
pub open spec fn delete_violation(s: Seq<NodeView>, t: Shape, k: Seq<u8>) -> Option<RawIndex>
    decreases t,
{
    match t {
        Shape::Nil => None,
        Shape::Bin(l, id, r) => {
            if !digest_ok(s, id) {
                Some(id)
            } else if key_lt(k, s[id as int].key) {
                delete_violation(s, *l, k)
            } else if key_lt(s[id as int].key, k) {
                delete_violation(s, *r, k)
            } else if *l is Bin && *r is Bin {
                spine_violation(s, *r)
            } else {
                None
            }
        },
    }
}

/// The left spine of a subtree depends only on its own slots.
pub proof fn lemma_frame_spine(s1: Seq<NodeView>, s2: Seq<NodeView>, t: Shape, idx: RawIndex)
    requires
        linked(s1, t, idx),
        agree_on(s1, s2, t),
    ensures
        spine_violation(s2, t) == spine_violation(s1, t),
    decreases t,
{
    match t {
        Shape::Nil => {},
        Shape::Bin(l, id, r) => {
            lemma_agree_children(s1, s2, t);
            lemma_frame_spine(s1, s2, *l, s1[id as int].left);
            lemma_linked_live(s1, *l, s1[id as int].left);
            lemma_linked_live(s1, *r, s1[id as int].right);
            let n = s1[id as int];
            if n.left != NULL_INDEX {
                lemma_root_in_ids(*l);
                assert(ids(t).contains(n.left as int));
            }
            if n.right != NULL_INDEX {
                lemma_root_in_ids(*r);
                assert(ids(t).contains(n.right as int));
            }
        },
    }
}

/// Deleting the least key of a subtree reads only its left spine.
pub proof fn lemma_min_delete_reads_spine(s: Seq<NodeView>, t: Shape, idx: RawIndex)
    requires
        t is Bin,
        linked(s, t, idx),
        ordered(s, t),
        spine_violation(s, t) is None,
    ensures
        delete_violation(s, t, s[leftmost(t) as int].key) is None,
    decreases t,
{
    lemma_key_order_all();
    let l = left_of(t);
    let id = root_of(t);
    assert(linked(s, l, s[id as int].left));
    if l is Bin {
        lemma_leftmost_min(s, l, s[id as int].left);
        lemma_min_delete_reads_spine(s, l, s[id as int].left);
        assert(key_lt(s[leftmost(t) as int].key, s[id as int].key));
    }
}

/// The balance of a node: the height of its left subtree minus that of its
/// right subtree.
pub open spec fn bal_of(t: Shape) -> int {
    height(left_of(t)) - height(right_of(t))
}

/// The single right rotation of `bin(bin(a, x, b), y, c)`: `bin(a, x, bin(b, y, c))`.
pub open spec fn rot_right(t: Shape) -> Shape {
    bin(left_of(left_of(t)), root_of(left_of(t)), bin(right_of(left_of(t)), root_of(t), right_of(t)))
}

/// The single left rotation of `bin(a, x, bin(b, y, c))`: `bin(bin(a, x, b), y, c)`.
pub open spec fn rot_left(t: Shape) -> Shape {
    bin(bin(left_of(t), root_of(t), left_of(right_of(t))), root_of(right_of(t)), right_of(right_of(t)))
}

/// The rebalancing step after a deletion: a node whose children differ in
/// height by two is rotated toward the lower side, twice when the higher
/// child leans the other way.
pub open spec fn rebal_del(t: Shape) -> Shape {
    if bal_of(t) > 1 && bal_of(left_of(t)) >= 0 {
        rot_right(t)
    } else if bal_of(t) > 1 {
        rot_right(bin(rot_left(left_of(t)), root_of(t), right_of(t)))
    } else if bal_of(t) < -1 && bal_of(right_of(t)) <= 0 {
        rot_left(t)
    } else if bal_of(t) < -1 {
        rot_left(bin(left_of(t), root_of(t), rot_right(right_of(t))))
    } else {
        t
    }
}

/// The key of slot `i` once `k` has been placed in slot `slot`.
pub open spec fn key_at(s: Seq<NodeView>, i: RawIndex, k: Seq<u8>, slot: RawIndex) -> Seq<u8> {
    if i == slot {
        k
    } else {
        s[i as int].key
    }
}

/// The rebalancing step after an insertion of `k` (into slot `slot`): a node
/// whose children differ in height by two is rotated toward the lower side,
/// twice when `k` went to the inner grandchild.
pub open spec fn rebal_ins(s: Seq<NodeView>, t: Shape, k: Seq<u8>, slot: RawIndex) -> Shape {
    let kl = key_at(s, root_of(left_of(t)), k, slot);
    let kr = key_at(s, root_of(right_of(t)), k, slot);
    if bal_of(t) > 1 && key_lt(k, kl) {
        rot_right(t)
    } else if bal_of(t) < -1 && key_lt(kr, k) {
        rot_left(t)
    } else if bal_of(t) > 1 && key_lt(kl, k) {
        rot_right(bin(rot_left(left_of(t)), root_of(t), right_of(t)))
    } else if bal_of(t) < -1 && key_lt(k, kr) {
        rot_left(bin(left_of(t), root_of(t), rot_right(right_of(t))))
    } else {
        t
    }
}

/// The shape an insertion of `k` into slot `slot` gives the subtree `t`: down
/// the search path, a new leaf at its end, and a rebalancing step at each node
/// on the way back up.
pub open spec fn ins_shape(s: Seq<NodeView>, t: Shape, k: Seq<u8>, slot: RawIndex) -> Shape
    decreases t,
{
    match t {
        Shape::Nil => bin(Shape::Nil, slot, Shape::Nil),
        Shape::Bin(l, id, r) => {
            if key_lt(k, s[id as int].key) {
                rebal_ins(s, bin(ins_shape(s, *l, k, slot), id, *r), k, slot)
            } else if key_lt(s[id as int].key, k) {
                rebal_ins(s, bin(*l, id, ins_shape(s, *r, k, slot)), k, slot)
            } else {
                t
            }
        },
    }
}

/// The shape a deletion of `k` gives the subtree `t`: down the search path;
/// a found node with at most one child is replaced by that child, one with two
/// children keeps its place and loses the least node of its right subtree
/// instead; and a rebalancing step at each node on the way back up.
pub open spec fn del_shape(s: Seq<NodeView>, t: Shape, k: Seq<u8>) -> Shape
    decreases t,
{
    match t {
        Shape::Nil => Shape::Nil,
        Shape::Bin(l, id, r) => {
            if key_lt(k, s[id as int].key) {
                rebal_del(bin(del_shape(s, *l, k), id, *r))
            } else if key_lt(s[id as int].key, k) {
                rebal_del(bin(*l, id, del_shape(s, *r, k)))
            } else if *l is Nil {
                *r
            } else if *r is Nil {
                *l
            } else {
                rebal_del(bin(*l, id, del_shape(s, *r, s[leftmost(*r) as int].key)))
            }
        },
    }
}

/// The shape a deletion gives depends only on the keys in the subtree's own
/// slots.
pub proof fn lemma_frame_del_shape(s1: Seq<NodeView>, s2: Seq<NodeView>, t: Shape, k: Seq<u8>)
    requires
        agree_on(s1, s2, t),
    ensures
        del_shape(s2, t, k) == del_shape(s1, t, k),
    decreases t,
{
    match t {
        Shape::Nil => {},
        Shape::Bin(l, id, r) => {
            lemma_agree_children(s1, s2, t);
            lemma_frame_del_shape(s1, s2, *l, k);
            lemma_frame_del_shape(s1, s2, *r, k);
            if *r is Bin {
                lemma_leftmost_in_ids(*r);
                lemma_frame_del_shape(s1, s2, *r, s1[leftmost(*r) as int].key);
            }
        },
    }
}

/// The leftmost node of a nonempty subtree is one of its nodes.
pub proof fn lemma_leftmost_in_ids(t: Shape)
    requires
        t is Bin,
    ensures
        ids(t).contains(leftmost(t) as int),
    decreases t,
{
    if left_of(t) is Bin {
        lemma_leftmost_in_ids(left_of(t));
    }
}

/// What a deletion of `k` from the subtree `t` of `s` leaves behind: the
/// subtree `t2` of `s2` at `idx2`; when `k` was there, slot `d` is the one
/// that was released.
pub open spec fn delete_post(
    s: Seq<NodeView>,
    t: Shape,
    s2: Seq<NodeView>,
    t2: Shape,
    idx2: RawIndex,
    k: Seq<u8>,
    d: int,
) -> bool {
    &&& sound(s2, t2, idx2)
    &&& content(s2, t2) == content(s, t).remove(k)
    &&& content(s, t).contains_key(k) ==> ids(t).contains(d) && ids(t2) == ids(t).remove(d)
        && 0 <= d < s2.len() && !s2[d].is_active
    &&& !content(s, t).contains_key(k) ==> ids(t2) == ids(t)
    &&& height(t2) == height(t) || height(t2) + 1 == height(t)
    &&& digests_ok(s, t) ==> digests_ok(s2, t2)
    &&& s2.len() == s.len()
    &&& frame_outside(s, s2, ids(t))
}

/// Where a deletion stands once the changed subtree hangs under the root of
/// `t` again, before any rebalancing.
pub open spec fn delete_mid(
    s: Seq<NodeView>,
    t: Shape,
    s3: Seq<NodeView>,
    ct: Shape,
    k: Seq<u8>,
    d: int,
) -> bool {
    &&& t is Bin
    &&& ct is Bin
    &&& root_of(ct) == root_of(t)
    &&& linked(s3, ct, root_of(t))
    &&& distinct(ct)
    &&& ordered(s3, ct)
    &&& heights_ok(s3, ct)
    &&& balanced(left_of(ct))
    &&& balanced(right_of(ct))
    &&& balanced(t)
    &&& content(s3, ct) == content(s, t).remove(k)
    &&& content(s, t).contains_key(k) ==> ids(t).contains(d) && ids(ct) == ids(t).remove(d)
        && 0 <= d < s3.len() && !s3[d].is_active
    &&& !content(s, t).contains_key(k) ==> ids(ct) == ids(t)
    &&& ({
        ||| height(right_of(ct)) == height(right_of(t)) && (height(left_of(ct)) == height(left_of(t))
            || height(left_of(ct)) + 1 == height(left_of(t)))
        ||| height(left_of(ct)) == height(left_of(t)) && (height(right_of(ct)) == height(right_of(t))
            || height(right_of(ct)) + 1 == height(right_of(t)))
    })
    &&& digests_ok(s, t) ==> digests_ok(s3, ct)
    &&& s3.len() == s.len()
    &&& frame_outside(s, s3, ids(t))
}

/// Hanging the result `nl` of a deletion from the left subtree of `t` back
/// under the root of `t`.
pub proof fn lemma_attach_del_left(
    s: Seq<NodeView>,
    t: Shape,
    s1: Seq<NodeView>,
    nl: Shape,
    nlidx: RawIndex,
    k: Seq<u8>,
    d: int,
    s3: Seq<NodeView>,
)
    requires
        t is Bin,
        sound(s, t, root_of(t)),
        key_lt(k, s[root_of(t) as int].key),
        delete_post(s, left_of(t), s1, nl, nlidx, k, d),
        unchanged_except(s1, s3, root_of(t) as int, root_of(t) as int),
        s3[root_of(t) as int].left == nlidx,
        s3[root_of(t) as int].right == s[root_of(t) as int].right,
        same_payload_view(s3[root_of(t) as int], s[root_of(t) as int]),
        s3[root_of(t) as int].height == height(bin(nl, root_of(t), right_of(t))),
        digest_ok(s3, root_of(t)),
    ensures
        delete_mid(s, t, s3, bin(nl, root_of(t), right_of(t)), k, d),
{
    let id = root_of(t);
    let l = left_of(t);
    let r = right_of(t);
    let ct = bin(nl, id, r);
    assert(t == bin(l, id, r));
    lemma_linked_live(s, t, id);
    lemma_linked_live(s, r, s[id as int].right);
    lemma_linked_live(s1, nl, nlidx);
    lemma_content_side(s, t, k);
    assert(ids(t).contains(id as int));
    assert(!ids(l).contains(id as int));
    assert(ids(nl).subset_of(ids(l)));
    assert(!ids(nl).contains(id as int));
    assert forall|i: int| #[trigger] ids(r).contains(i) implies 0 <= i < s3.len() && s3[i] == s[i] by {
        assert(ids(t).contains(i));
        assert(!ids(l).contains(i));
    }
    lemma_frame(s, s3, r, s[id as int].right);
    assert(agree_on(s1, s3, nl));
    lemma_frame(s1, s3, nl, nlidx);
    assert(linked(s3, ct, id));
    assert(distinct(ct)) by {
        assert forall|i: int| ids(nl).contains(i) implies !ids(r).contains(i) by {
            assert(ids(l).contains(i));
        }
    }
    lemma_key_order_all();
    assert forall|q: Seq<u8>| #[trigger] content(s3, nl).contains_key(q) implies key_lt(q, s3[id as int].key) by {
        assert(content(s, l).contains_key(q));
    }
    assert(ordered(s3, ct));
    assert(heights_ok(s3, ct));
    assert(content(s, t) == content(s, l).union_prefer_right(content(s, r)).insert(s[id as int].key, s[id as int].value));
    assert(!content(s, r).contains_key(k));
    assert(content(s3, ct) =~= content(s, t).remove(k));
    if content(s, t).contains_key(k) {
        assert(ids(ct) =~= ids(t).remove(d));
        assert(s3[d] == s1[d]);
    } else {
        assert(ids(ct) =~= ids(t));
    }
    assert forall|i: int| 0 <= i < s.len() && !ids(t).contains(i) implies #[trigger] s3[i] == s[i] by {
        assert(!ids(l).contains(i));
    }
    if digests_ok(s, t) {
        assert(digests_ok(s, l));
        assert(digests_ok(s3, ct));
    }
}

/// Hanging the result `nr` of a deletion from the right subtree of `t` back
/// under the root of `t`. The root may have taken on a new key and value,
/// below all keys of `nr` and above all keys of the left subtree: the
/// deletion then removed the node that carried them before.
pub proof fn lemma_attach_del_right(
    s: Seq<NodeView>,
    t: Shape,
    s0: Seq<NodeView>,
    s1: Seq<NodeView>,
    nr: Shape,
    nridx: RawIndex,
    k: Seq<u8>,
    k_right: Seq<u8>,
    d: int,
    s3: Seq<NodeView>,
)
    requires
        t is Bin,
        sound(s, t, root_of(t)),
        agree_on(s, s0, right_of(t)),
        s0.len() == s.len(),
        forall|i: int| 0 <= i < s.len() && i != root_of(t) ==> #[trigger] s0[i] == s[i],
        delete_post(s0, right_of(t), s1, nr, nridx, k_right, d),
        unchanged_except(s1, s3, root_of(t) as int, root_of(t) as int),
        s3[root_of(t) as int].right == nridx,
        s3[root_of(t) as int].left == s[root_of(t) as int].left,
        s3[root_of(t) as int].is_active,
        s3[root_of(t) as int].height == height(bin(left_of(t), root_of(t), nr)),
        digest_ok(s3, root_of(t)),
        // either an ordinary deletion below the root ...
        (key_lt(s[root_of(t) as int].key, k) && k_right == k && s3[root_of(t) as int].key == s[root_of(
            t,
        ) as int].key && s3[root_of(t) as int].value == s[root_of(t) as int].value)
        // ... or the root takes over the least pair of the right subtree
            || (k == s[root_of(t) as int].key && right_of(t) is Bin && k_right == s[leftmost(right_of(t)) as int].key
            && s3[root_of(t) as int].key == k_right && s3[root_of(t) as int].value == s[leftmost(
            right_of(t),
        ) as int].value),
    ensures
        delete_mid(s, t, s3, bin(left_of(t), root_of(t), nr), k, d),
{
    let id = root_of(t);
    let l = left_of(t);
    let r = right_of(t);
    let ct = bin(l, id, nr);
    let kid = s[id as int].key;
    assert(t == bin(l, id, r));
    lemma_linked_live(s, t, id);
    lemma_linked_live(s, l, s[id as int].left);
    lemma_linked_live(s, r, s[id as int].right);
    lemma_linked_live(s1, nr, nridx);
    lemma_content_side(s, t, k);
    lemma_frame(s, s0, r, s[id as int].right);
    assert(ids(t).contains(id as int));
    assert(!ids(r).contains(id as int));
    assert(ids(nr).subset_of(ids(r)));
    assert(!ids(nr).contains(id as int));
    assert forall|i: int| #[trigger] ids(l).contains(i) implies 0 <= i < s3.len() && s3[i] == s[i] by {
        assert(ids(t).contains(i));
        assert(!ids(r).contains(i));
    }
    lemma_frame(s, s3, l, s[id as int].left);
    assert(agree_on(s1, s3, nr));
    lemma_frame(s1, s3, nr, nridx);
    assert(linked(s3, ct, id));
    assert(distinct(ct)) by {
        assert forall|i: int| ids(l).contains(i) implies !ids(nr).contains(i) by {
            if ids(nr).contains(i) {
                assert(ids(r).contains(i));
            }
        }
    }
    lemma_key_order_all();
    assert(content(s, t) == content(s, l).union_prefer_right(content(s, r)).insert(kid, s[id as int].value));
    let kr = s3[id as int].key;
    if k == kid && r is Bin && k_right == s[leftmost(r) as int].key {
        lemma_leftmost_min(s, r, s[id as int].right);
        assert(content(s, r).contains_key(k_right));
    }
    assert forall|q: Seq<u8>| #[trigger] content(s3, nr).contains_key(q) implies key_lt(kr, q) by {
        assert(content(s0, r).contains_key(q));
        assert(content(s, r).contains_key(q));
        assert(q != k_right);
    }
    assert forall|q: Seq<u8>| #[trigger] content(s3, l).contains_key(q) implies key_lt(q, kr) by {
        assert(content(s, l).contains_key(q));
        if kr != kid {
            assert(content(s, r).contains_key(kr));
        }
    }
    assert(ordered(s3, ct));
    assert(heights_ok(s3, ct));
    assert(!content(s, l).contains_key(k));
    if k == kid && r is Bin && k_right == s[leftmost(r) as int].key {
        assert(!content(s, r).contains_key(k));
        assert(content(s3, ct) =~= content(s, t).remove(k));
    } else {
        assert(content(s3, ct) =~= content(s, t).remove(k));
    }
    if content(s, t).contains_key(k) {
        assert(content(s0, r).contains_key(k_right));
        assert(ids(ct) =~= ids(t).remove(d));
        assert(s3[d] == s1[d]);
    } else {
        assert(ids(ct) =~= ids(t));
    }
    assert forall|i: int| 0 <= i < s.len() && !ids(t).contains(i) implies #[trigger] s3[i] == s[i] by {
        assert(!ids(r).contains(i));
    }
    if digests_ok(s, t) {
        assert(digests_ok(s, r));
        assert(digests_ok(s0, r));
        assert(digests_ok(s3, ct));
    }
}

/// The pairs of the subtree in symmetric order: left subtree, node, right
/// subtree.
pub open spec fn inorder(s: Seq<NodeView>, t: Shape) -> Seq<(Seq<u8>, Seq<u8>)>
    decreases t,
{
    match t {
        Shape::Nil => Seq::empty(),
        Shape::Bin(l, id, r) => inorder(s, *l) + seq![(s[id as int].key, s[id as int].value)] + inorder(s, *r),
    }
}

/// The keys of `e` strictly increase.
pub open spec fn keys_increasing(e: Seq<(Seq<u8>, Seq<u8>)>) -> bool {
    forall|i: int, j: int| 0 <= i < j < e.len() ==> key_lt(#[trigger] e[i].0, #[trigger] e[j].0)
}

/// The symmetric order of an ordered subtree lists each of its pairs once,
/// by increasing key.
pub proof fn lemma_inorder(s: Seq<NodeView>, t: Shape)
    requires
        ordered(s, t),
    ensures
        keys_increasing(inorder(s, t)),
        forall|i: int| 0 <= i < inorder(s, t).len() ==> #[trigger] content(s, t).contains_key(inorder(s, t)[i].0)
            && content(s, t)[inorder(s, t)[i].0] == inorder(s, t)[i].1,
        forall|k: Seq<u8>| #[trigger] content(s, t).contains_key(k) ==> exists|i: int|
            0 <= i < inorder(s, t).len() && #[trigger] inorder(s, t)[i].0 == k,
    decreases t,
{
    match t {
        Shape::Nil => {},
        Shape::Bin(l, id, r) => {
            lemma_inorder(s, *l);
            lemma_inorder(s, *r);
            lemma_key_order_all();
            lemma_content_side(s, t, s[id as int].key);
            let el = inorder(s, *l);
            let er = inorder(s, *r);
            let mid = seq![(s[id as int].key, s[id as int].value)];
            let e = inorder(s, t);
            assert(e == el + mid + er);
            let kid = s[id as int].key;
            assert forall|i: int| 0 <= i < e.len() implies #[trigger] content(s, t).contains_key(e[i].0)
                && content(s, t)[e[i].0] == e[i].1 by {
                if i < el.len() {
                    assert(e[i] == el[i]);
                    assert(content(s, *l).contains_key(el[i].0));
                    lemma_content_side(s, t, e[i].0);
                } else if i == el.len() {
                } else {
                    assert(e[i] == er[i - el.len() - 1]);
                    assert(content(s, *r).contains_key(er[i - el.len() - 1].0));
                    lemma_content_side(s, t, e[i].0);
                }
            }
            assert forall|i: int, j: int| 0 <= i < j < e.len() implies key_lt(#[trigger] e[i].0, #[trigger] e[j].0) by {
                if j < el.len() {
                    assert(e[i] == el[i] && e[j] == el[j]);
                } else if i > el.len() {
                    assert(e[i] == er[i - el.len() - 1] && e[j] == er[j - el.len() - 1]);
                } else {
                    if i < el.len() {
                        assert(e[i] == el[i]);
                        assert(content(s, *l).contains_key(e[i].0));
                    }
                    if j > el.len() {
                        assert(e[j] == er[j - el.len() - 1]);
                        assert(content(s, *r).contains_key(e[j].0));
                    }
                }
            }
            assert forall|k: Seq<u8>| #[trigger] content(s, t).contains_key(k) implies exists|i: int|
                0 <= i < e.len() && #[trigger] e[i].0 == k by {
                if k == kid {
                    assert(e[el.len() as int].0 == k);
                } else if content(s, *l).contains_key(k) {
                    let i = choose|i: int| 0 <= i < el.len() && #[trigger] el[i].0 == k;
                    assert(e[i] == el[i]);
                } else {
                    assert(content(s, *r).contains_key(k));
                    let i = choose|i: int| 0 <= i < er.len() && #[trigger] er[i].0 == k;
                    assert(e[i + el.len() + 1] == er[i]);
                }
            }
        },
    }
}

/// The key of every node of a subtree is one of its keys.
pub proof fn lemma_member_key(s: Seq<NodeView>, t: Shape, idx: RawIndex, i: int)
    requires
        linked(s, t, idx),
        ids(t).contains(i),
    ensures
        content(s, t).contains_key(s[i].key),
    decreases t,
{
    match t {
        Shape::Nil => {},
        Shape::Bin(l, id, r) => {
            if i != id as int {
                if ids(*l).contains(i) {
                    lemma_member_key(s, *l, s[id as int].left, i);
                } else {
                    lemma_member_key(s, *r, s[id as int].right, i);
                }
            }
        },
    }
}

/// Changing only the value stored in slot `i` of the subtree changes only
/// what the subtree maps that slot's key to.
pub proof fn lemma_value_update(s: Seq<NodeView>, s2: Seq<NodeView>, t: Shape, idx: RawIndex, i: int)
    requires
        linked(s, t, idx),
        distinct(t),
        ordered(s, t),
        ids(t).contains(i),
        s2.len() == s.len(),
        forall|j: int| 0 <= j < s.len() && j != i ==> #[trigger] s2[j] == s[j],
        s2[i] == (NodeView { value: s2[i].value, ..s[i] }),
    ensures
        linked(s2, t, idx),
        ordered(s2, t),
        heights_ok(s2, t) == heights_ok(s, t),
        content(s2, t) == content(s, t).insert(s[i].key, s2[i].value),
    decreases t,
{
    lemma_key_order_all();
    match t {
        Shape::Nil => {},
        Shape::Bin(l, id, r) => {
            lemma_linked_live(s, *l, s[id as int].left);
            lemma_linked_live(s, *r, s[id as int].right);
            if i == id as int {
                assert(agree_on(s, s2, *l));
                assert(agree_on(s, s2, *r));
                lemma_frame(s, s2, *l, s[id as int].left);
                lemma_frame(s, s2, *r, s[id as int].right);
                assert(content(s2, t) =~= content(s, t).insert(s[i].key, s2[i].value));
            } else if ids(*l).contains(i) {
                lemma_value_update(s, s2, *l, s[id as int].left, i);
                assert(agree_on(s, s2, *r));
                lemma_frame(s, s2, *r, s[id as int].right);
                lemma_content_side(s, t, s[i].key);
                lemma_member_key(s, *l, s[id as int].left, i);
                assert forall|q: Seq<u8>| #[trigger] content(s2, *l).contains_key(q) implies key_lt(q, s2[id as int].key) by {
                    if q != s[i].key {
                        assert(content(s, *l).contains_key(q));
                    }
                }
                assert(content(s2, t) =~= content(s, t).insert(s[i].key, s2[i].value));
            } else {
                assert(ids(*r).contains(i));
                lemma_value_update(s, s2, *r, s[id as int].right, i);
                lemma_member_key(s, *r, s[id as int].right, i);
                assert(agree_on(s, s2, *l));
                lemma_frame(s, s2, *l, s[id as int].left);
                assert forall|q: Seq<u8>| #[trigger] content(s2, *r).contains_key(q) implies key_lt(s2[id as int].key, q) by {
                    if q != s[i].key {
                        assert(content(s, *r).contains_key(q));
                    }
                }
                assert(content(s2, t) =~= content(s, t).insert(s[i].key, s2[i].value));
            }
        },
    }
}

/// The Fibonacci numbers: 0, 1, 1, 2, 3, 5, ...
pub open spec fn fib(n: nat) -> nat
    decreases n,
{
    if n == 0 {
        0
    } else if n == 1 {
        1
    } else {
        fib((n - 1) as nat) + fib((n - 2) as nat)
    }
}

proof fn lemma_fib_mono(a: nat, b: nat)
    requires
        a <= b,
    ensures
        fib(a) <= fib(b),
    decreases b,
{
    if a < b {
        lemma_fib_mono(a, (b - 1) as nat);
        if b >= 2 {
        }
    }
}

/// A balanced tree of height `h` has at least `fib(h + 2) - 1` nodes, the
/// size of the sparsest AVL tree of that height.
pub proof fn lemma_balanced_fib(t: Shape)
    requires
        balanced(t),
    ensures
        fib(height(t) + 2) <= size(t) + 1,
    decreases t,
{
    match t {
        Shape::Nil => {
            assert(fib(2) == 1) by {
                reveal_with_fuel(fib, 3);
            }
        },
        Shape::Bin(l, _, r) => {
            lemma_balanced_fib(*l);
            lemma_balanced_fib(*r);
            let h = height(t);
            let hl = height(*l);
            let hr = height(*r);
            assert(fib(h + 2) == fib(h + 1) + fib(h as nat));
            if hl >= hr {
                lemma_fib_mono(h as nat, hr + 2);
            } else {
                lemma_fib_mono(h as nat, hl + 2);
            }
        },
    }
}

/// `e` lists exactly the pairs of `m`.
pub open spec fn lists_map(e: Seq<(Seq<u8>, Seq<u8>)>, m: Map<Seq<u8>, Seq<u8>>) -> bool {
    &&& forall|i: int| 0 <= i < e.len() ==> #[trigger] m.contains_key(e[i].0) && m[e[i].0] == e[i].1
    &&& forall|k: Seq<u8>| #[trigger] m.contains_key(k) ==> exists|i: int| 0 <= i < e.len() && #[trigger] e[i].0 == k
}

/// A map has only one listing by strictly increasing key.
pub proof fn lemma_sorted_listing_unique(
    e1: Seq<(Seq<u8>, Seq<u8>)>,
    e2: Seq<(Seq<u8>, Seq<u8>)>,
    m: Map<Seq<u8>, Seq<u8>>,
)
    requires
        keys_increasing(e1),
        keys_increasing(e2),
        lists_map(e1, m),
        lists_map(e2, m),
    ensures
        e1 == e2,
    decreases e1.len(),
{
    lemma_key_order_all();
    if e1.len() == 0 {
        if e2.len() > 0 {
            assert(m.contains_key(e2[0].0));
        }
        assert(e1 =~= e2);
    } else {
        assert(m.contains_key(e1[0].0));
        let j = choose|j: int| 0 <= j < e2.len() && #[trigger] e2[j].0 == e1[0].0;
        assert(m.contains_key(e2[0].0));
        let i = choose|i: int| 0 <= i < e1.len() && #[trigger] e1[i].0 == e2[0].0;
        if j > 0 && i > 0 {
            assert(key_lt(e2[0].0, e2[j].0));
            assert(key_lt(e1[0].0, e1[i].0));
        }
        let a = e1[0].0;
        assert(e2[0].0 == a);
        assert(e1[0] == e2[0]);
        let m2 = m.remove(a);
        let f1 = e1.drop_first();
        let f2 = e2.drop_first();
        assert forall|p: int, q: int| 0 <= p < q < f1.len() implies key_lt(#[trigger] f1[p].0, #[trigger] f1[q].0) by {
            assert(f1[p] == e1[p + 1] && f1[q] == e1[q + 1]);
        }
        assert forall|p: int, q: int| 0 <= p < q < f2.len() implies key_lt(#[trigger] f2[p].0, #[trigger] f2[q].0) by {
            assert(f2[p] == e2[p + 1] && f2[q] == e2[q + 1]);
        }
        assert forall|p: int| 0 <= p < f1.len() implies #[trigger] m2.contains_key(f1[p].0) && m2[f1[p].0] == f1[p].1 by {
            assert(f1[p] == e1[p + 1]);
            assert(key_lt(e1[0].0, e1[p + 1].0));
            assert(m.contains_key(e1[p + 1].0));
        }
        assert forall|p: int| 0 <= p < f2.len() implies #[trigger] m2.contains_key(f2[p].0) && m2[f2[p].0] == f2[p].1 by {
            assert(f2[p] == e2[p + 1]);
            assert(key_lt(e2[0].0, e2[p + 1].0));
            assert(m.contains_key(e2[p + 1].0));
        }
        assert forall|k: Seq<u8>| #[trigger] m2.contains_key(k) implies exists|p: int| 0 <= p < f1.len() && #[trigger] f1[p].0 == k by {
            assert(m.contains_key(k));
            let p = choose|p: int| 0 <= p < e1.len() && #[trigger] e1[p].0 == k;
            assert(p != 0);
            assert(f1[p - 1].0 == k);
        }
        assert forall|k: Seq<u8>| #[trigger] m2.contains_key(k) implies exists|p: int| 0 <= p < f2.len() && #[trigger] f2[p].0 == k by {
            assert(m.contains_key(k));
            let p = choose|p: int| 0 <= p < e2.len() && #[trigger] e2[p].0 == k;
            assert(p != 0);
            assert(f2[p - 1].0 == k);
        }
        lemma_sorted_listing_unique(f1, f2, m2);
        assert(f1.len() == f2.len());
        assert(e1.len() == e2.len());
        assert(e1 =~= e2) by {
            assert forall|p: int| 0 <= p < e1.len() implies e1[p] == e2[p] by {
                if p > 0 {
                    assert(e1[p] == f1[p - 1]);
                    assert(e2[p] == f2[p - 1]);
                }
            }
        }
    }
}

/// Doubling, the lower bound on the size of a balanced tree.
pub open spec fn dbl(k: nat) -> nat
    decreases k,
{
    if k == 0 {
        1
    } else {
        2 * dbl((k - 1) as nat)
    }
}

proof fn lemma_dbl_mono(a: nat, b: nat)
    requires
        a <= b,
    ensures
        dbl(a) <= dbl(b),
    decreases b,
{
    if a < b {
        lemma_dbl_mono(a, (b - 1) as nat);
    }
}

/// A balanced tree of height `h >= 1` has at least `2^((h-1)/2)` nodes.
pub proof fn lemma_balanced_size(t: Shape)
    requires
        balanced(t),
    ensures
        height(t) >= 1 ==> dbl(((height(t) - 1) / 2) as nat) <= size(t),
    decreases t,
{
    match t {
        Shape::Nil => {},
        Shape::Bin(l, _, r) => {
            lemma_balanced_size(*l);
            lemma_balanced_size(*r);
            let h = height(t);
            if h >= 3 {
                let k = ((h - 1) / 2) as nat;
                let kk = ((h - 3) / 2) as nat;
                assert(k == kk + 1);
                // both children have height at least h - 2 >= 1
                lemma_dbl_mono(kk, ((height(*l) - 1) / 2) as nat);
                lemma_dbl_mono(kk, ((height(*r) - 1) / 2) as nat);
            }
        },
    }
}

/// A balanced, distinct tree over live slots of an arena that fits below the
/// null index is at most 64 levels high.
pub proof fn lemma_height_bound(s: Seq<NodeView>, t: Shape, idx: RawIndex)
    requires
        linked(s, t, idx),
        distinct(t),
        balanced(t),
        s.len() <= NULL_INDEX,
    ensures
        height(t) <= 64,
{
    lemma_linked_live(s, t, idx);
    lemma_ids_finite(t);
    lemma_int_range(0, s.len() as int);
    assert(ids(t).subset_of(set_int_range(0, s.len() as int)));
    lemma_len_subset(ids(t), set_int_range(0, s.len() as int));
    lemma_balanced_size(t);
    if height(t) > 64 {
        assert(dbl(32) == 0x1_0000_0000) by {
            reveal_with_fuel(dbl, 33);
        }
        lemma_dbl_mono(32, ((height(t) - 1) / 2) as nat);
    }
}

/// The outcome of validating subtree `t` whose keys must lie strictly between
/// the bounds `lo` and `hi` (where given), node by node in pre-order: a node
/// fails when its key is out of bounds or its digest is wrong; then its left
/// subtree (bounded above by its key) and its right subtree (bounded below by
/// it) are validated; then the node fails when the children's heights differ
/// by more than one or its stored height is not one more than the larger.
/// `Ok` carries the height of the subtree, `Err` the first node that failed.
pub open spec fn validation(s: Seq<NodeView>, t: Shape, lo: Option<Seq<u8>>, hi: Option<Seq<u8>>) -> Result<
    int,
    RawIndex,
>
    decreases t,
{
    match t {
        Shape::Nil => Ok(0),
        Shape::Bin(l, id, r) => {
            let k = s[id as int].key;
            if (lo matches Some(m) && !key_lt(m, k)) || (hi matches Some(m) && !key_lt(k, m)) {
                Err(id)
            } else if !digest_ok(s, id) {
                Err(id)
            } else {
                match validation(s, *l, lo, Some(k)) {
                    Err(v) => Err(v),
                    Ok(hl) => match validation(s, *r, Some(k), hi) {
                        Err(v) => Err(v),
                        Ok(hr) => {
                            let h = 1 + if hl >= hr { hl } else { hr };
                            if hl - hr > 1 || hr - hl > 1 {
                                Err(id)
                            } else if s[id as int].height != h {
                                Err(id)
                            } else {
                                Ok(h)
                            }
                        },
                    },
                }
            }
        },
    }
}

/// A subtree that passes validation is balanced, stores its true heights,
/// and the height reported is its height.
pub proof fn lemma_validation_ok(s: Seq<NodeView>, t: Shape, lo: Option<Seq<u8>>, hi: Option<Seq<u8>>)
    requires
        validation(s, t, lo, hi) is Ok,
    ensures
        validation(s, t, lo, hi) == Ok::<int, RawIndex>(height(t) as int),
        balanced(t),
        heights_ok(s, t),
    decreases t,
{
    match t {
        Shape::Nil => {},
        Shape::Bin(l, id, r) => {
            let k = s[id as int].key;
            lemma_validation_ok(s, *l, lo, Some(k));
            lemma_validation_ok(s, *r, Some(k), hi);
        },
    }
}

/// On a sound subtree whose keys lie within the bounds, validation fails
/// exactly at the first node, in pre-order, whose digest is wrong, and
/// otherwise reports the height.
pub proof fn lemma_validation_sound(
    s: Seq<NodeView>,
    t: Shape,
    idx: RawIndex,
    lo: Option<Seq<u8>>,
    hi: Option<Seq<u8>>,
)
    requires
        sound(s, t, idx),
        forall|k: Seq<u8>| #[trigger] content(s, t).contains_key(k) ==> {
            &&& (lo matches Some(m) ==> key_lt(m, k))
            &&& (hi matches Some(m) ==> key_lt(k, m))
        },
    ensures
        validation(s, t, lo, hi) == match audit_violation(s, t) {
            Some(v) => Err::<int, RawIndex>(v),
            None => Ok(height(t) as int),
        },
    decreases t,
{
    match t {
        Shape::Nil => {},
        Shape::Bin(l, id, r) => {
            let k = s[id as int].key;
            assert(content(s, t).contains_key(k));
            assert forall|k2: Seq<u8>| #[trigger] content(s, *l).contains_key(k2) implies {
                &&& (lo matches Some(m) ==> key_lt(m, k2))
                &&& (Some(k) matches Some(m) ==> key_lt(k2, m))
            } by {
                assert(content(s, t).contains_key(k2));
            }
            assert forall|k2: Seq<u8>| #[trigger] content(s, *r).contains_key(k2) implies {
                &&& (Some(k) matches Some(m) ==> key_lt(m, k2))
                &&& (hi matches Some(m) ==> key_lt(k2, m))
            } by {
                assert(content(s, t).contains_key(k2));
            }
            lemma_validation_sound(s, *l, s[id as int].left, lo, Some(k));
            lemma_validation_sound(s, *r, s[id as int].right, Some(k), hi);
        },
    }
}

/// The slots a search for `k` visits, from the root down to `k`'s node or to
/// the place where `k` would hang.
pub open spec fn path_ids(s: Seq<NodeView>, t: Shape, k: Seq<u8>) -> Set<int>
    decreases t,
{
    match t {
        Shape::Nil => Set::empty(),
        Shape::Bin(l, id, r) => {
            let below = if key_lt(k, s[id as int].key) {
                path_ids(s, *l, k)
            } else if key_lt(s[id as int].key, k) {
                path_ids(s, *r, k)
            } else {
                Set::empty()
            };
            below.insert(id as int)
        },
    }
}

/// A search reports a node of its path whose digest is wrong, and reports
/// nothing only when every node of its path is right.
pub proof fn lemma_path_violation(s: Seq<NodeView>, t: Shape, idx: RawIndex, k: Seq<u8>)
    requires
        linked(s, t, idx),
    ensures
        path_ids(s, t, k).subset_of(ids(t)),
        path_violation(s, t, k) matches Some(n) ==> path_ids(s, t, k).contains(n as int) && !digest_ok(s, n),
        path_violation(s, t, k) is None <==> forall|i: RawIndex| #[trigger]
            path_ids(s, t, k).contains(i as int) ==> digest_ok(s, i),
    decreases t,
{
    match t {
        Shape::Nil => {
            assert(path_ids(s, t, k) =~= Set::<int>::empty());
        },
        Shape::Bin(l, id, r) => {
            lemma_path_violation(s, *l, s[id as int].left, k);
            lemma_path_violation(s, *r, s[id as int].right, k);
            assert(path_ids(s, t, k).contains(id as int));
            let below = if key_lt(k, s[id as int].key) {
                path_ids(s, *l, k)
            } else if key_lt(s[id as int].key, k) {
                path_ids(s, *r, k)
            } else {
                Set::empty()
            };
            assert(path_ids(s, t, k) == below.insert(id as int));
            if path_violation(s, t, k) is None {
                assert forall|i: RawIndex| #[trigger] path_ids(s, t, k).contains(i as int) implies digest_ok(s, i) by {
                    if i != id {
                        assert(below.contains(i as int));
                    }
                }
            }
            if forall|i: RawIndex| #[trigger] path_ids(s, t, k).contains(i as int) ==> digest_ok(s, i) {
                assert forall|i: RawIndex| #[trigger] below.contains(i as int) implies digest_ok(s, i) by {
                    assert(path_ids(s, t, k).contains(i as int));
                }
            }
        },
    }
}

/// Every digest of a subtree is right exactly when each of its nodes carries
/// a right one.
pub proof fn lemma_digests_ok_all(s: Seq<NodeView>, t: Shape)
    ensures
        digests_ok(s, t) <==> forall|i: RawIndex| #[trigger] ids(t).contains(i as int) ==> digest_ok(s, i),
    decreases t,
{
    match t {
        Shape::Nil => {
            assert(ids(t) =~= Set::<int>::empty());
        },
        Shape::Bin(l, id, r) => {
            lemma_digests_ok_all(s, *l);
            lemma_digests_ok_all(s, *r);
            assert(ids(t).contains(id as int));
            if digests_ok(s, t) {
                assert forall|i: RawIndex| #[trigger] ids(t).contains(i as int) implies digest_ok(s, i) by {
                    if i != id {
                        if ids(*l).contains(i as int) {
                        } else {
                            assert(ids(*r).contains(i as int));
                        }
                    }
                }
            }
            if forall|i: RawIndex| #[trigger] ids(t).contains(i as int) ==> digest_ok(s, i) {
                assert forall|i: RawIndex| #[trigger] ids(*l).contains(i as int) implies digest_ok(s, i) by {
                    assert(ids(t).contains(i as int));
                }
                assert forall|i: RawIndex| #[trigger] ids(*r).contains(i as int) implies digest_ok(s, i) by {
                    assert(ids(t).contains(i as int));
                }
            }
        },
    }
}

/// An audit reports a node of the subtree whose digest is wrong.
pub proof fn lemma_audit_violation(s: Seq<NodeView>, t: Shape)
    ensures
        audit_violation(s, t) matches Some(n) ==> ids(t).contains(n as int) && !digest_ok(s, n),
    decreases t,
{
    match t {
        Shape::Nil => {},
        Shape::Bin(l, id, r) => {
            lemma_audit_violation(s, *l);
            lemma_audit_violation(s, *r);
        },
    }
}

} // verus!

use vstd::prelude::*;

verus! {

/// The outcome of comparing two keys.
#[derive(Debug, Clone, Copy, PartialEq, Eq, Structural)]
pub enum KeyOrder {
    Less,
    Equal,
    Greater,
}

/// Lexicographic order on byte strings, looked at from position `i` on:
/// the first differing byte decides, and a proper prefix comes first.
pub open spec fn lex_lt_from(a: Seq<u8>, b: Seq<u8>, i: int) -> bool
    decreases a.len() - i,
{
    if i < 0 || i >= a.len() {
        i >= 0 && i == a.len() && i < b.len()
    } else if i >= b.len() {
        false
    } else if a[i] < b[i] {
        true
    } else if a[i] > b[i] {
        false
    } else {
        lex_lt_from(a, b, i + 1)
    }
}

/// `a` sorts strictly before `b` (the order of `str` and `[u8]` in std).
pub open spec fn key_lt(a: Seq<u8>, b: Seq<u8>) -> bool {
    lex_lt_from(a, b, 0)
}

proof fn lemma_lex_irrefl(a: Seq<u8>, i: int)
    requires
        0 <= i <= a.len(),
    ensures
        !lex_lt_from(a, a, i),
    decreases a.len() - i,
{
    if i < a.len() {
        lemma_lex_irrefl(a, i + 1);
    }
}

proof fn lemma_lex_trans(a: Seq<u8>, b: Seq<u8>, c: Seq<u8>, i: int)
    requires
        0 <= i,
        i <= a.len(),
        i <= b.len(),
        i <= c.len(),
        lex_lt_from(a, b, i),
        lex_lt_from(b, c, i),
    ensures
        lex_lt_from(a, c, i),
    decreases a.len() - i,
{
    if i < a.len() && i < b.len() && i < c.len() && a[i] == b[i] && b[i] == c[i] {
        lemma_lex_trans(a, b, c, i + 1);
    }
}

proof fn lemma_lex_total(a: Seq<u8>, b: Seq<u8>, i: int)
    requires
        0 <= i <= a.len(),
        i <= b.len(),
        forall|j: int| 0 <= j < i ==> a[j] == b[j],
    ensures
        lex_lt_from(a, b, i) || lex_lt_from(b, a, i) || a == b,
        !(lex_lt_from(a, b, i) && lex_lt_from(b, a, i)),
    decreases a.len() - i,
{
    if i < a.len() && i < b.len() && a[i] == b[i] {
        lemma_lex_total(a, b, i + 1);
    } else if i == a.len() && i == b.len() {
        assert(a =~= b);
    }
}

/// `key_lt` is a strict total order.
pub proof fn lemma_key_order(a: Seq<u8>, b: Seq<u8>, c: Seq<u8>)
    ensures
        !key_lt(a, a),
        key_lt(a, b) && key_lt(b, c) ==> key_lt(a, c),
        key_lt(a, b) || key_lt(b, a) || a == b,
        !(key_lt(a, b) && key_lt(b, a)),
{
    lemma_lex_irrefl(a, 0);
    if key_lt(a, b) && key_lt(b, c) {
        lemma_lex_trans(a, b, c, 0);
    }
    lemma_lex_total(a, b, 0);
}

/// `key_lt` is a strict order, stated for all keys at once.
pub proof fn lemma_key_order_all()
    ensures
        forall|a: Seq<u8>| !#[trigger] key_lt(a, a),
        forall|a: Seq<u8>, b: Seq<u8>, c: Seq<u8>|
            #[trigger] key_lt(a, b) && #[trigger] key_lt(b, c) ==> key_lt(a, c),
        forall|a: Seq<u8>, b: Seq<u8>| #[trigger] key_lt(a, b) ==> !key_lt(b, a),
{
    assert forall|a: Seq<u8>| !#[trigger] key_lt(a, a) by {
        lemma_key_order(a, a, a);
    }
    assert forall|a: Seq<u8>, b: Seq<u8>, c: Seq<u8>|
        #[trigger] key_lt(a, b) && #[trigger] key_lt(b, c) implies key_lt(a, c) by {
        lemma_key_order(a, b, c);
    }
    assert forall|a: Seq<u8>, b: Seq<u8>| #[trigger] key_lt(a, b) implies !key_lt(b, a) by {
        lemma_key_order(a, b, a);
    }
}

proof fn lemma_lex_common_prefix(a: Seq<u8>, b: Seq<u8>, i: int, j: int)
    requires
        0 <= j <= i,
        i <= a.len(),
        i <= b.len(),
        forall|k: int| 0 <= k < i ==> a[k] == b[k],
    ensures
        lex_lt_from(a, b, j) == lex_lt_from(a, b, i),
    decreases i - j,
{
    if j < i {
        lemma_lex_common_prefix(a, b, i, j + 1);
    }
}

/// Keys are ordered byte by byte, each byte read as an unsigned number from
/// 0 to 255: where `a` and `b` first differ, at position `i`, `a` sorts
/// first exactly when its byte there is the smaller one.
pub proof fn law_first_difference_decides(a: Seq<u8>, b: Seq<u8>, i: int)
    requires
        0 <= i < a.len(),
        i < b.len(),
        forall|k: int| 0 <= k < i ==> a[k] == b[k],
        a[i] != b[i],
    ensures
        key_lt(a, b) <==> (a[i] as int) < (b[i] as int),
        key_lt(b, a) <==> (b[i] as int) < (a[i] as int),
{
    lemma_lex_common_prefix(a, b, i, 0);
    lemma_lex_common_prefix(b, a, i, 0);
}

/// A proper prefix sorts before every longer key that starts with it.
pub proof fn law_prefix_sorts_first(a: Seq<u8>, b: Seq<u8>)
    requires
        a.len() < b.len(),
        forall|k: int| 0 <= k < a.len() ==> a[k] == b[k],
    ensures
        key_lt(a, b),
        !key_lt(b, a),
{
    lemma_lex_common_prefix(a, b, a.len() as int, 0);
    lemma_lex_common_prefix(b, a, a.len() as int, 0);
}

/// Compares two keys byte by byte.
pub fn compare_keys(a: &Vec<u8>, b: &Vec<u8>) -> (r: KeyOrder)
    ensures
        r == KeyOrder::Less <==> key_lt(a@, b@),
        r == KeyOrder::Greater <==> key_lt(b@, a@),
        r == KeyOrder::Equal <==> a@ == b@,
{
    proof {
        lemma_key_order(a@, b@, b@);
    }
    let mut i: usize = 0;
    while i < a.len() && i < b.len()
        invariant
            i <= a.len(),
            i <= b.len(),
            forall|j: int| 0 <= j < i ==> a@[j] == b@[j],
            key_lt(a@, b@) == lex_lt_from(a@, b@, i as int),
            key_lt(b@, a@) == lex_lt_from(b@, a@, i as int),
        decreases a.len() - i,
    {
        if a[i] < b[i] {
            return KeyOrder::Less;
        } else if a[i] > b[i] {
            return KeyOrder::Greater;
        }
        i = i + 1;
    }
    if i < b.len() {
        KeyOrder::Less
    } else if i < a.len() {
        KeyOrder::Greater
    } else {
        assert(a@ =~= b@);
        KeyOrder::Equal
    }
}

/// Copies a byte string.
pub fn copy_bytes(b: &Vec<u8>) -> (r: Vec<u8>)
    ensures
        r@ == b@,
{
    let r = b.clone();
    assert(r@ =~= b@);
    r
}

} // verus!

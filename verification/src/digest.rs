use vstd::prelude::*;

verus! {

/// The 32-byte BLAKE3 digest of a byte string.
pub uninterp spec fn blake3_digest(input: Seq<u8>) -> Seq<u8>;

/// Calls `blake3::hash` on `input` and hands back the 32 raw bytes of the
/// digest (`Hash::as_bytes`). The contract claims only that the result is the
/// BLAKE3 digest of the input bytes, a function of those bytes alone.
#[verifier::external_body]
fn blake3_hash(input: &[u8]) -> (out: [u8; 32])
    ensures
        out@ == blake3_digest(input@),
{
    *blake3::hash(input).as_bytes()
}


/// The eight bytes of `h`, least significant first (`u64::to_le_bytes`).
pub open spec fn le_bytes(h: u64) -> Seq<u8> {
    seq![
        (h % 0x100) as u8,
        ((h / 0x100) % 0x100) as u8,
        ((h / 0x1_0000) % 0x100) as u8,
        ((h / 0x100_0000) % 0x100) as u8,
        ((h / 0x1_0000_0000) % 0x100) as u8,
        ((h / 0x100_0000_0000) % 0x100) as u8,
        ((h / 0x1_0000_0000_0000) % 0x100) as u8,
        ((h / 0x100_0000_0000_0000) % 0x100) as u8,
    ]
}

/// The number whose little-endian bytes are the first eight of `d`.
pub open spec fn le_word(d: Seq<u8>) -> u64 {
    (d[0] as int + d[1] as int * 0x100 + d[2] as int * 0x1_0000 + d[3] as int * 0x100_0000
        + d[4] as int * 0x1_0000_0000 + d[5] as int * 0x100_0000_0000
        + d[6] as int * 0x1_0000_0000_0000 + d[7] as int * 0x100_0000_0000_0000) as u64
}

/// The bytes that a node's digest covers: its key, its value, then the
/// stored digest of each child that is present, left before right.
pub open spec fn node_message(
    key: Seq<u8>,
    value: Seq<u8>,
    left: Option<u64>,
    right: Option<u64>,
) -> Seq<u8> {
    let l = match left {
        Some(h) => le_bytes(h),
        None => Seq::empty(),
    };
    let r = match right {
        Some(h) => le_bytes(h),
        None => Seq::empty(),
    };
    key + value + l + r
}

/// Digests are written and read least significant byte first: the eight
/// bytes written for `h` read back as `h`, the first of them is the lowest
/// byte of `h`, and the lowest byte of a word read from `d` is `d[0]`.
pub proof fn law_little_endian(h: u64, d: Seq<u8>)
    requires
        d.len() >= 8,
    ensures
        le_bytes(h).len() == 8,
        le_bytes(h)[0] as int == h as int % 256,
        le_word(le_bytes(h)) == h,
        le_word(d) as int % 256 == d[0] as int,
{
    assert(h == (h % 0x100) + ((h / 0x100) % 0x100) * 0x100 + ((h / 0x1_0000) % 0x100) * 0x1_0000 + ((h / 0x100_0000) % 0x100) * 0x100_0000
        + ((h / 0x1_0000_0000) % 0x100) * 0x1_0000_0000 + ((h / 0x100_0000_0000) % 0x100) * 0x100_0000_0000
        + ((h / 0x1_0000_0000_0000) % 0x100) * 0x1_0000_0000_0000 + ((h / 0x100_0000_0000_0000) % 0x100) * 0x100_0000_0000_0000) by (bit_vector);
    let b0 = (h % 0x100) as u8;
    let b1 = ((h / 0x100) % 0x100) as u8;
    let b2 = ((h / 0x1_0000) % 0x100) as u8;
    let b3 = ((h / 0x100_0000) % 0x100) as u8;
    let b4 = ((h / 0x1_0000_0000) % 0x100) as u8;
    let b5 = ((h / 0x100_0000_0000) % 0x100) as u8;
    let b6 = ((h / 0x1_0000_0000_0000) % 0x100) as u8;
    let b7 = ((h / 0x100_0000_0000_0000) % 0x100) as u8;
    assert(le_bytes(h) =~= seq![b0, b1, b2, b3, b4, b5, b6, b7]);
    let (c0, c1, c2, c3, c4, c5, c6, c7) = (d[0], d[1], d[2], d[3], d[4], d[5], d[6], d[7]);
    assert(((c0 as u64 + c1 as u64 * 0x100 + c2 as u64 * 0x1_0000 + c3 as u64 * 0x100_0000 + c4 as u64
        * 0x1_0000_0000 + c5 as u64 * 0x100_0000_0000 + c6 as u64 * 0x1_0000_0000_0000 + c7 as u64
        * 0x100_0000_0000_0000) as u64) % 256 == c0 as u64) by (bit_vector);
}

/// A node's digest: the first eight bytes of the BLAKE3 hash of its message,
/// read as a little-endian number.
#[verifier::opaque]
pub open spec fn node_digest(
    key: Seq<u8>,
    value: Seq<u8>,
    left: Option<u64>,
    right: Option<u64>,
) -> u64 {
    le_word(blake3_digest(node_message(key, value, left, right)))
}

fn push_le_bytes(out: &mut Vec<u8>, h: u64)
    ensures
        final(out)@ == old(out)@ + le_bytes(h),
{
    out.push((h % 0x100) as u8);
    out.push(((h / 0x100) % 0x100) as u8);
    out.push(((h / 0x1_0000) % 0x100) as u8);
    out.push(((h / 0x100_0000) % 0x100) as u8);
    out.push(((h / 0x1_0000_0000) % 0x100) as u8);
    out.push(((h / 0x100_0000_0000) % 0x100) as u8);
    out.push(((h / 0x1_0000_0000_0000) % 0x100) as u8);
    out.push(((h / 0x100_0000_0000_0000) % 0x100) as u8);
    assert(final(out)@ =~= old(out)@ + le_bytes(h));
}

fn push_bytes(out: &mut Vec<u8>, b: &Vec<u8>)
    ensures
        final(out)@ == old(out)@ + b@,
{
    let ghost start = out@;
    let mut i: usize = 0;
    while i < b.len()
        invariant
            i <= b.len(),
            out@ == start + b@.subrange(0, i as int),
        decreases b.len() - i,
    {
        out.push(b[i]);
        i = i + 1;
        assert(out@ =~= start + b@.subrange(0, i as int));
    }
    assert(b@.subrange(0, b.len() as int) =~= b@);
}

/// The bytes a node's digest covers: key, value, then the little-endian
/// digest of each child that is present, left before right.
pub fn node_message_bytes(key: &Vec<u8>, value: &Vec<u8>, left: Option<u64>, right: Option<u64>) -> (msg: Vec<u8>)
    ensures
        msg@ == node_message(key@, value@, left, right),
{
    let mut msg: Vec<u8> = Vec::new();
    push_bytes(&mut msg, key);
    push_bytes(&mut msg, value);
    match left {
        Some(lh) => push_le_bytes(&mut msg, lh),
        None => {},
    }
    match right {
        Some(rh) => push_le_bytes(&mut msg, rh),
        None => {},
    }
    assert(msg@ =~= node_message(key@, value@, left, right));
    msg
}

/// Reads the first eight bytes of a BLAKE3 digest as a little-endian number.
pub fn digest_word(d: &[u8; 32]) -> (w: u64)
    ensures
        w == le_word(d@),
{
    d[0] as u64 + d[1] as u64 * 0x100 + d[2] as u64 * 0x1_0000 + d[3] as u64 * 0x100_0000
        + d[4] as u64 * 0x1_0000_0000 + d[5] as u64 * 0x100_0000_0000
        + d[6] as u64 * 0x1_0000_0000_0000 + d[7] as u64 * 0x100_0000_0000_0000
}

/// Computes a node's digest from its key, its value and the stored digests of
/// its children.
pub fn compute_node_digest(key: &Vec<u8>, value: &Vec<u8>, left: Option<u64>, right: Option<u64>) -> (h: u64)
    ensures
        h == node_digest(key@, value@, left, right),
{
    let msg = node_message_bytes(key, value, left, right);
    let d = blake3_hash(msg.as_slice());
    proof {
        reveal(node_digest);
    }
    digest_word(&d)
}

} // verus!

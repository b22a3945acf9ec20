use vstd::prelude::*;

verus! {

/// Number of leading bytes of a payload that carry its count.
pub const COUNT_BYTES: usize = 8;

/// The count carried by the first eight bytes of `p`, read big-endian.
pub open spec fn count_of(p: Seq<u8>) -> u64
    recommends
        p.len() >= 8,
{
    ((p[0] as u64) << 56u64) | ((p[1] as u64) << 48u64) | ((p[2] as u64) << 40u64) | ((p[3] as u64)
        << 32u64) | ((p[4] as u64) << 24u64) | ((p[5] as u64) << 16u64) | ((p[6] as u64) << 8u64)
        | (p[7] as u64)
}

/// The eight big-endian bytes of `c`.
pub open spec fn count_bytes(c: u64) -> Seq<u8> {
    seq![
        (c >> 56u64) as u8,
        (c >> 48u64) as u8,
        (c >> 40u64) as u8,
        (c >> 32u64) as u8,
        (c >> 24u64) as u8,
        (c >> 16u64) as u8,
        (c >> 8u64) as u8,
        c as u8,
    ]
}

/// Decoding the bytes of a count gives the count back.
pub proof fn lemma_count_round_trip(c: u64)
    ensures
        count_of(count_bytes(c)) == c,
{
    let b0 = (c >> 56u64) as u8;
    let b1 = (c >> 48u64) as u8;
    let b2 = (c >> 40u64) as u8;
    let b3 = (c >> 32u64) as u8;
    let b4 = (c >> 24u64) as u8;
    let b5 = (c >> 16u64) as u8;
    let b6 = (c >> 8u64) as u8;
    let b7 = c as u8;
    assert(((b0 as u64) << 56u64) | ((b1 as u64) << 48u64) | ((b2 as u64) << 40u64) | ((b3 as u64)
        << 32u64) | ((b4 as u64) << 24u64) | ((b5 as u64) << 16u64) | ((b6 as u64) << 8u64) | (
    b7 as u64) == c) by (bit_vector)
        requires
            b0 == (c >> 56u64) as u8,
            b1 == (c >> 48u64) as u8,
            b2 == (c >> 40u64) as u8,
            b3 == (c >> 32u64) as u8,
            b4 == (c >> 24u64) as u8,
            b5 == (c >> 16u64) as u8,
            b6 == (c >> 8u64) as u8,
            b7 == c as u8,
    ;
}

/// Decodes the count at the head of a payload.
pub fn count(pl: &[u8]) -> (c: u64)
    requires
        pl@.len() >= 8,
    ensures
        c == count_of(pl@),
{
    ((pl[0] as u64) << 56u64) | ((pl[1] as u64) << 48u64) | ((pl[2] as u64) << 40u64) | ((
    pl[3] as u64) << 32u64) | ((pl[4] as u64) << 24u64) | ((pl[5] as u64) << 16u64) | ((
    pl[6] as u64) << 8u64) | (pl[7] as u64)
}


/// A drop marker of `size` bytes: the big-endian count `c`, then zeros.
pub open spec fn drop_marker_of(c: u64, size: nat) -> Seq<u8> {
    count_bytes(c) + Seq::new((size - 8) as nat, |i: int| 0u8)
}

/// A drop marker for count `c` decodes back to `c`.
pub proof fn lemma_drop_marker_round_trip(c: u64, size: nat)
    requires
        size >= 8,
    ensures
        drop_marker_of(c, size).len() == size,
        count_of(drop_marker_of(c, size)) == c,
{
    let m = drop_marker_of(c, size);
    let b = count_bytes(c);
    assert(forall|k: int| 0 <= k < 8 ==> m[k] == b[k]);
    lemma_count_round_trip(c);
}

/// Overwrites `dst` with the drop marker for count `c`.
pub fn write_marker(dst: &mut Vec<u8>, c: u64)
    requires
        old(dst)@.len() >= 8,
    ensures
        final(dst)@ == drop_marker_of(c, old(dst)@.len()),
{
    let n = dst.len();
    dst.set(0, (c >> 56u64) as u8);
    dst.set(1, (c >> 48u64) as u8);
    dst.set(2, (c >> 40u64) as u8);
    dst.set(3, (c >> 32u64) as u8);
    dst.set(4, (c >> 24u64) as u8);
    dst.set(5, (c >> 16u64) as u8);
    dst.set(6, (c >> 8u64) as u8);
    dst.set(7, c as u8);
    let mut j: usize = 8;
    while j < n
        invariant
            dst@.len() == n,
            8 <= j <= n,
            forall|k: int| 0 <= k < 8 ==> dst@[k] == count_bytes(c)[k],
            forall|k: int| 8 <= k < j ==> dst@[k] == 0u8,
        decreases n - j,
    {
        dst.set(j, 0u8);
        j += 1;
    }
    assert(dst@ =~= drop_marker_of(c, n as nat));
}

/// The drop marker of `payload_size` bytes for count `c`.
pub fn drop_marker(c: u64, payload_size: usize) -> (r: Vec<u8>)
    requires
        payload_size >= 8,
    ensures
        r@ == drop_marker_of(c, payload_size as nat),
{
    let mut r: Vec<u8> = vec![0u8; payload_size];
    write_marker(&mut r, c);
    r
}

} // verus!

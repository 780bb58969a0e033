use vstd::prelude::*;

use crate::error::CodecError;

verus! {

/// Length of every shard when `len` bytes are split into `k` shards:
/// the ceiling of `len / k`.
pub open spec fn shard_len(len: nat, k: nat) -> nat
    recommends
        k > 0,
{
    if len % k == 0 {
        len / k
    } else {
        len / k + 1
    }
}

/// Byte `j` of the payload extended by zeros on the right.
pub open spec fn padded_at(p: Seq<u8>, j: int) -> u8 {
    if 0 <= j < p.len() {
        p[j]
    } else {
        0u8
    }
}

/// The `k` shards of `p`: shard `i` holds bytes `[i*S, (i+1)*S)` of the
/// zero-padded payload, where `S = shard_len(|p|, k)`.
pub open spec fn split_spec(p: Seq<u8>, k: nat) -> Seq<Seq<u8>> {
    let s = shard_len(p.len(), k);
    Seq::new(k, |i: int| Seq::new(s, |j: int| padded_at(p, i * s + j)))
}

/// The byte contents of a sequence of shard buffers.
pub open spec fn shards_view(v: Seq<Vec<u8>>) -> Seq<Seq<u8>> {
    v.map_values(|s: Vec<u8>| s@)
}

proof fn lemma_next_row(i: int, s: int)
    ensures
        (i + 1) * s == i * s + s,
{
    assert((i + 1) * s == i * s + s) by (nonlinear_arith);
}

/// Splits `data` into `k` shards of equal length, padding the tail with zeros.
pub fn split_data(data: &[u8], k: usize) -> (r: Result<Vec<Vec<u8>>, CodecError>)
    ensures
        k == 0 ==> r == Err::<Vec<Vec<u8>>, CodecError>(CodecError::InvalidParameter),
        k > 0 ==> (r matches Ok(v) && shards_view(v@) == split_spec(data@, k as nat)),
{
    if k == 0 {
        return Err(CodecError::InvalidParameter);
    }
    let len = data.len();
    let size: usize = if len % k == 0 {
        len / k
    } else {
        proof {
            assert(0 < len && 1 < k) by (nonlinear_arith)
                requires
                    len % k != 0,
                    k > 0,
            ;
            vstd::arithmetic::div_mod::lemma_div_decreases(len as int, k as int);
        }
        len / k + 1
    };
    let ghost target = split_spec(data@, k as nat);
    assert(size == shard_len(len as nat, k as nat));
    let mut shards: Vec<Vec<u8>> = Vec::with_capacity(k);
    let mut pos: usize = 0;
    let mut i: usize = 0;
    while i < k
        invariant
            0 < k,
            len == data@.len(),
            size == shard_len(len as nat, k as nat),
            target == split_spec(data@, k as nat),
            i <= k,
            shards@.len() == i,
            pos <= len,
            pos == len || pos == i * size,
            pos < len ==> pos == i * size,
            pos == len ==> i * size >= len,
            forall|a: int| 0 <= a < i ==> (#[trigger] shards@[a])@ == target[a],
        decreases k - i,
    {
        let mut shard: Vec<u8> = Vec::with_capacity(size);
        let mut j: usize = 0;
        while j < size
            invariant
                len == data@.len(),
                i < k,
                j <= size,
                shard@.len() == j,
                pos <= len,
                pos < len ==> pos == i * size + j,
                pos == len ==> i * size + j >= len,
                forall|b: int|
                    0 <= b < j ==> #[trigger] shard@[b] == padded_at(data@, i * size + b),
            decreases size - j,
        {
            if pos < len {
                shard.push(data[pos]);
                pos = pos + 1;
            } else {
                shard.push(0u8);
            }
            j = j + 1;
        }
        proof {
            lemma_next_row(i as int, size as int);
            assert(shard@ =~= target[i as int]);
        }
        shards.push(shard);
        i = i + 1;
    }
    assert(shards_view(shards@) =~= target);
    Ok(shards)
}

} // verus!

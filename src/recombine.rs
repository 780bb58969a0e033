use vstd::prelude::*;

use crate::error::CodecError;
use crate::partition::{padded_at, shard_len, split_spec};

verus! {

/// The bytes of `s` laid end to end, in index order.
pub open spec fn concat(s: Seq<Seq<u8>>) -> Seq<u8>
    decreases s.len(),
{
    if s.len() == 0 {
        Seq::empty()
    } else {
        concat(s.drop_last()) + s.last()
    }
}

/// The byte contents of a sequence of optional shard buffers.
pub open spec fn slots_view(v: Seq<Option<Vec<u8>>>) -> Seq<Option<Seq<u8>>> {
    v.map_values(|o: Option<Vec<u8>>| match o {
        Some(b) => Some(b@),
        None => None,
    })
}

/// Every shard of `full`, each present.
pub open spec fn all_slots(full: Seq<Seq<u8>>) -> Seq<Option<Seq<u8>>> {
    full.map_values(|s: Seq<u8>| Some(s))
}

/// Every slot holds a shard.
pub open spec fn all_present(slots: Seq<Option<Seq<u8>>>) -> bool {
    forall|i: int| 0 <= i < slots.len() ==> (#[trigger] slots[i]) is Some
}

/// The shards of slots that are all present.
pub open spec fn unwrap_all(slots: Seq<Option<Seq<u8>>>) -> Seq<Seq<u8>> {
    slots.map_values(|o: Option<Seq<u8>>| o.unwrap())
}

/// What recombining `slots` to `len` bytes yields: the concatenated shards
/// cut to `len` bytes, or the error that stops it.
pub open spec fn combine_spec(slots: Seq<Option<Seq<u8>>>, len: nat) -> Result<Seq<u8>, CodecError> {
    if !all_present(slots) {
        Err(CodecError::MissingShard)
    } else if len > concat(unwrap_all(slots)).len() {
        Err(CodecError::InvalidLength)
    } else {
        Ok(concat(unwrap_all(slots)).take(len as int))
    }
}

/// Concatenates the shards of `shards` in index order and cuts the result to
/// `original_len` bytes.
pub fn combine_shards(shards: &[Option<Vec<u8>>], original_len: usize) -> (r: Result<
    Vec<u8>,
    CodecError,
>)
    ensures
        r matches Ok(v) ==> combine_spec(slots_view(shards@), original_len as nat) == Ok::<
            Seq<u8>,
            CodecError,
        >(v@),
        r matches Err(e) ==> combine_spec(slots_view(shards@), original_len as nat) == Err::<
            Seq<u8>,
            CodecError,
        >(e),
{
    let ghost slots = slots_view(shards@);
    let n = shards.len();
    let mut i: usize = 0;
    while i < n
        invariant
            n == shards@.len(),
            slots == slots_view(shards@),
            i <= n,
            forall|a: int| 0 <= a < i ==> (#[trigger] slots[a]) is Some,
        decreases n - i,
    {
        if shards[i].is_none() {
            assert(slots[i as int] is None);
            assert(!all_present(slots));
            return Err(CodecError::MissingShard);
        }
        i = i + 1;
    }
    assert(all_present(slots));
    let ghost parts = unwrap_all(slots);
    let mut out: Vec<u8> = Vec::new();
    i = 0;
    while i < n
        invariant
            n == shards@.len(),
            slots == slots_view(shards@),
            parts == unwrap_all(slots),
            all_present(slots),
            i <= n,
            out@ == concat(parts.take(i as int)),
        decreases n - i,
    {
        let shard = match &shards[i] {
            Some(b) => b,
            None => {
                assert(slots[i as int] is Some);
                return Err(CodecError::MissingShard);
            },
        };
        assert(slots[i as int] is Some);
        let m = shard.len();
        let mut j: usize = 0;
        while j < m
            invariant
                m == shard@.len(),
                j <= m,
                out@ == concat(parts.take(i as int)) + shard@.take(j as int),
            decreases m - j,
        {
            out.push(shard[j]);
            j = j + 1;
            assert(out@ =~= concat(parts.take(i as int)) + shard@.take(j as int));
        }
        assert(parts.take(i + 1).drop_last() =~= parts.take(i as int));
        assert(shard@.take(m as int) =~= shard@);
        i = i + 1;
    }
    assert(parts.take(n as int) =~= parts);
    if out.len() < original_len {
        return Err(CodecError::InvalidLength);
    }
    out.truncate(original_len);
    Ok(out)
}

proof fn lemma_concat_rows(p: Seq<u8>, s: nat, k: nat, rows: Seq<Seq<u8>>, c: nat)
    requires
        rows == Seq::new(k, |i: int| Seq::new(s, |j: int| padded_at(p, i * s + j))),
        c <= k,
    ensures
        concat(rows.take(c as int)) =~= Seq::new(c * s, |j: int| padded_at(p, j)),
    decreases c,
{
    if c > 0 {
        lemma_concat_rows(p, s, k, rows, (c - 1) as nat);
        assert(rows.take(c as int).drop_last() =~= rows.take(c - 1));
        assert((c - 1) * s + s == c * s) by (nonlinear_arith);
    } else {
        assert(c * s == 0) by (nonlinear_arith)
            requires
                c == 0,
        ;
    }
}

/// Splitting a payload into `k >= 1` shards and recombining all of them to
/// the payload's length gives back the payload.
pub proof fn lemma_split_combine_round_trip(p: Seq<u8>, k: nat)
    requires
        k >= 1,
    ensures
        combine_spec(all_slots(split_spec(p, k)), p.len()) == Ok::<
            Seq<u8>,
            CodecError,
        >(p),
{
    let rows = split_spec(p, k);
    let s = shard_len(p.len(), k);
    let slots = all_slots(rows);
    assert(all_present(slots));
    assert(unwrap_all(slots) =~= rows);
    lemma_concat_rows(p, s, k, rows, k);
    assert(rows.take(k as int) =~= rows);
    lemma_shard_len_covers(p.len(), k);
    assert(concat(rows).take(p.len() as int) =~= p);
}

/// `split_spec(p, k)` is exactly `k` shards, each of length `ceil(|p| / k)`;
/// each byte is the payload byte at its offset, or zero past the payload's
/// end. When `k` divides `|p|` the shards hold exactly the payload's bytes,
/// with no padding.
pub proof fn lemma_split_shape(p: Seq<u8>, k: nat)
    requires
        k >= 1,
    ensures
        split_spec(p, k).len() == k,
        forall|i: int| 0 <= i < k ==> (#[trigger] split_spec(p, k)[i]).len() == shard_len(p.len(), k),
        k * shard_len(p.len(), k) >= p.len(),
        k * shard_len(p.len(), k) < p.len() + k,
        forall|i: int, j: int|
            0 <= i < k && 0 <= j < shard_len(p.len(), k) && i * shard_len(p.len(), k) + j >= p.len()
                ==> #[trigger] split_spec(p, k)[i][j] == 0u8,
        forall|i: int, j: int|
            0 <= i < k && 0 <= j < shard_len(p.len(), k) && i * shard_len(p.len(), k) + j < p.len()
                ==> #[trigger] split_spec(p, k)[i][j] == p[i * shard_len(p.len(), k) + j],
        p.len() % k == 0 ==> k * shard_len(p.len(), k) == p.len(),
{
    lemma_shard_len_covers(p.len(), k);
}

/// `shard_len(len, k)` is the ceiling of `len / k`: `k` shards of that length
/// hold the payload, and fewer than `k` bytes of them are padding.
pub proof fn lemma_shard_len_covers(len: nat, k: nat)
    requires
        k >= 1,
    ensures
        k * shard_len(len, k) >= len,
        k * shard_len(len, k) < len + k,
        len % k == 0 ==> k * shard_len(len, k) == len,
{
    vstd::arithmetic::div_mod::lemma_fundamental_div_mod(len as int, k as int);
    let q = len / k;
    let r = len % k;
    assert(k * (q + 1) == k * q + k) by (nonlinear_arith);
}

} // verus!

use vstd::prelude::*;

use crate::error::CodecError;
use crate::partition::shards_view;
use crate::recombine::slots_view;

verus! {

/// Position `i` is named in `lost`.
pub open spec fn is_lost(lost: Seq<usize>, i: int) -> bool {
    exists|t: int| 0 <= t < lost.len() && lost[t] as int == i
}

/// Every index in `lost` names one of `n` slots.
pub open spec fn lost_in_range(lost: Seq<usize>, n: nat) -> bool {
    forall|t: int| 0 <= t < lost.len() ==> (#[trigger] lost[t]) < n
}

/// How many distinct positions below `c` are named in `lost`
/// (duplicates count once).
pub open spec fn lost_count(lost: Seq<usize>, c: nat) -> nat
    decreases c,
{
    if c == 0 {
        0
    } else {
        lost_count(lost, (c - 1) as nat) + if is_lost(lost, c - 1) {
            1nat
        } else {
            0nat
        }
    }
}

/// How many slots hold a shard.
pub open spec fn present_count(slots: Seq<Option<Seq<u8>>>) -> nat
    decreases slots.len(),
{
    if slots.len() == 0 {
        0
    } else {
        present_count(slots.drop_last()) + if slots.last() is Some {
            1nat
        } else {
            0nat
        }
    }
}

/// A shard set with no shard present has a present count of zero.
pub proof fn lemma_none_present(slots: Seq<Option<Seq<u8>>>)
    requires
        forall|i: int| 0 <= i < slots.len() ==> (#[trigger] slots[i]) is None,
    ensures
        present_count(slots) == 0,
    decreases slots.len(),
{
    if slots.len() > 0 {
        let rest = slots.drop_last();
        assert forall|i: int| 0 <= i < rest.len() implies (#[trigger] rest[i]) is None by {
            assert(rest[i] == slots[i]);
        }
        lemma_none_present(rest);
    }
}

/// The shard set with every position named in `lost` absent and every other
/// position holding its shard.
pub open spec fn mark_spec(shards: Seq<Seq<u8>>, lost: Seq<usize>) -> Seq<Option<Seq<u8>>> {
    Seq::new(
        shards.len(),
        |i: int|
            if is_lost(lost, i) {
                None
            } else {
                Some(shards[i])
            },
    )
}

/// Copies a byte buffer.
pub fn copy_bytes(b: &[u8]) -> (r: Vec<u8>)
    ensures
        r@ == b@,
{
    let mut out: Vec<u8> = Vec::with_capacity(b.len());
    let mut j: usize = 0;
    while j < b.len()
        invariant
            j <= b@.len(),
            out@ == b@.take(j as int),
        decreases b@.len() - j,
    {
        out.push(b[j]);
        j = j + 1;
        assert(out@ =~= b@.take(j as int));
    }
    assert(b@.take(j as int) =~= b@);
    out
}

/// Builds the shard set in which the positions named in `lost` are absent;
/// fails if an index names no slot.
pub fn mark_lost(shards: &[Vec<u8>], lost: &[usize]) -> (r: Result<
    Vec<Option<Vec<u8>>>,
    CodecError,
>)
    ensures
        !lost_in_range(lost@, shards@.len()) ==> r == Err::<Vec<Option<Vec<u8>>>, CodecError>(
            CodecError::IndexOutOfRange,
        ),
        lost_in_range(lost@, shards@.len()) ==> (r matches Ok(v) && slots_view(v@) == mark_spec(shards_view(shards@), lost@)),
{
    let n = shards.len();
    let mut t: usize = 0;
    while t < lost.len()
        invariant
            n == shards@.len(),
            t <= lost@.len(),
            forall|u: int| 0 <= u < t ==> (#[trigger] lost@[u]) < n,
        decreases lost@.len() - t,
    {
        if lost[t] >= n {
            return Err(CodecError::IndexOutOfRange);
        }
        t = t + 1;
    }
    let ghost target = mark_spec(shards_view(shards@), lost@);
    let mut out: Vec<Option<Vec<u8>>> = Vec::with_capacity(n);
    let mut i: usize = 0;
    while i < n
        invariant
            n == shards@.len(),
            target == mark_spec(shards_view(shards@), lost@),
            i <= n,
            out@.len() == i,
            forall|a: int| 0 <= a < i ==> (#[trigger] slots_view(out@)[a]) == target[a],
        decreases n - i,
    {
        let mut hit = false;
        let mut u: usize = 0;
        while u < lost.len()
            invariant
                u <= lost@.len(),
                hit <==> exists|w: int| 0 <= w < u && lost@[w] as int == i as int,
            decreases lost@.len() - u,
        {
            if lost[u] == i {
                hit = true;
            }
            u = u + 1;
        }
        assert(hit <==> is_lost(lost@, i as int));
        let ghost before = out@;
        if hit {
            out.push(None);
        } else {
            out.push(Some(copy_bytes(&shards[i])));
        }
        proof {
            assert(out@.drop_last() == before);
            assert(slots_view(out@)[i as int] == target[i as int]);
            assert forall|a: int| 0 <= a <= i implies (#[trigger] slots_view(out@)[a])
                == target[a] by {
                if a < i {
                    assert(slots_view(out@)[a] == slots_view(out@.drop_last())[a]);
                }
            }
        }
        i = i + 1;
    }
    assert(slots_view(out@) =~= target);
    Ok(out)
}

proof fn lemma_present_prefix(shards: Seq<Seq<u8>>, lost: Seq<usize>, c: nat)
    requires
        c <= shards.len(),
    ensures
        present_count(mark_spec(shards, lost).take(c as int)) + lost_count(lost, c) == c,
    decreases c,
{
    if c > 0 {
        let marked = mark_spec(shards, lost);
        lemma_present_prefix(shards, lost, (c - 1) as nat);
        assert(marked.take(c as int).drop_last() =~= marked.take(c - 1));
    } else {
        assert(mark_spec(shards, lost).take(0) =~= Seq::<Option<Seq<u8>>>::empty());
    }
}

/// Marking positions lost leaves present exactly the slots that were not
/// named: `n` minus the number of distinct positions lost.
pub proof fn lemma_present_after_loss(shards: Seq<Seq<u8>>, lost: Seq<usize>)
    ensures
        present_count(mark_spec(shards, lost)) + lost_count(lost, shards.len()) == shards.len(),
{
    lemma_present_prefix(shards, lost, shards.len());
    assert(mark_spec(shards, lost).take(shards.len() as int) =~= mark_spec(shards, lost));
}

/// Losing more than `m` distinct positions of a set of `k + m` shards leaves
/// fewer than `k` present.
pub proof fn lemma_loss_beyond_budget(shards: Seq<Seq<u8>>, lost: Seq<usize>, k: nat, m: nat)
    requires
        shards.len() == k + m,
        lost_count(lost, shards.len()) > m,
    ensures
        present_count(mark_spec(shards, lost)) < k,
{
    lemma_present_after_loss(shards, lost);
}

/// Losing at most `m` distinct positions of a set of `k + m` shards leaves at
/// least `k` present.
pub proof fn lemma_loss_within_budget(shards: Seq<Seq<u8>>, lost: Seq<usize>, k: nat, m: nat)
    requires
        shards.len() == k + m,
        lost_count(lost, shards.len()) <= m,
    ensures
        present_count(mark_spec(shards, lost)) >= k,
{
    lemma_present_after_loss(shards, lost);
}

} // verus!

use vstd::prelude::*;

use reed_solomon_erasure::galois_8::Field as Gf8;
use reed_solomon_erasure::Error as RsError;
use reed_solomon_erasure::ReedSolomon;

use crate::partition::shards_view;
use crate::recombine::{all_slots, slots_view};
use crate::availability::present_count;

verus! {

/// A GF(2^8) Reed-Solomon codec of the `reed-solomon-erasure` crate, held
/// opaquely: Verus sees none of its contents.
#[verifier::external_body]
pub(crate) struct RsInner {
    rs: ReedSolomon<Gf8>,
}

/// A codec together with the shard counts it was built with; only `rs_new`
/// makes one.
pub(crate) struct RsCodec {
    data_shards: usize,
    parity_shards: usize,
    inner: RsInner,
}

impl RsCodec {
    /// The number of data shards the codec was built with.
    pub(crate) closed spec fn k(&self) -> nat {
        self.data_shards as nat
    }

    /// The number of parity shards the codec was built with.
    pub(crate) closed spec fn m(&self) -> nat {
        self.parity_shards as nat
    }
}

#[verifier::external_type_specification]
pub struct ExRsError(RsError);

/// The parity shards that the GF(2^8) Reed-Solomon code with `parity` parity
/// shards computes from the data shards `data`.
pub uninterp spec fn parity_of(parity: nat, data: Seq<Seq<u8>>) -> Seq<Seq<u8>>;

/// The shards that reconstruction computes for the absent slots of `slots`,
/// under the code with `parity` parity shards.
pub uninterp spec fn rebuilt_of(parity: nat, slots: Seq<Option<Seq<u8>>>) -> Seq<Seq<u8>>;

/// The full shard set for `data`: the data shards followed by their parity.
pub open spec fn codeword(parity: nat, data: Seq<Seq<u8>>) -> Seq<Seq<u8>> {
    data + parity_of(parity, data)
}

/// There is at least one shard, and all have the same length.
pub open spec fn same_len(shards: Seq<Seq<u8>>) -> bool {
    &&& shards.len() > 0
    &&& forall|i: int| 0 <= i < shards.len() ==> (#[trigger] shards[i]).len() == shards[0].len()
}

/// `n` empty shards.
pub open spec fn empty_shards(n: nat) -> Seq<Seq<u8>> {
    Seq::new(n, |i: int| Seq::<u8>::empty())
}

/// The full shard set for `data` under a code with `parity` parity shards:
/// the codeword when the shards hold bytes; the data followed by `parity`
/// empty shards when they are empty, which the code leaves alone.
pub open spec fn encoded(parity: nat, data: Seq<Seq<u8>>) -> Seq<Seq<u8>> {
    if data.len() > 0 && data[0].len() == 0 {
        data + empty_shards(parity)
    } else {
        codeword(parity, data)
    }
}

/// All present shards have the same length.
pub open spec fn slots_same_len(slots: Seq<Option<Seq<u8>>>) -> bool {
    forall|i: int, j: int|
        0 <= i < slots.len() && 0 <= j < slots.len() && (#[trigger] slots[i]) is Some
            && (#[trigger] slots[j]) is Some ==> slots[i].unwrap().len() == slots[j].unwrap().len()
}

/// All shards have the same, non-zero length.
pub open spec fn uniform(shards: Seq<Seq<u8>>) -> bool {
    &&& shards.len() > 0
    &&& shards[0].len() > 0
    &&& forall|i: int| 0 <= i < shards.len() ==> (#[trigger] shards[i]).len() == shards[0].len()
}

/// All present shards have the same, non-zero length.
pub open spec fn slots_uniform(slots: Seq<Option<Seq<u8>>>) -> bool {
    &&& forall|i: int| 0 <= i < slots.len() && (#[trigger] slots[i]) is Some ==> slots[i].unwrap().len() > 0
    &&& forall|i: int, j: int|
        0 <= i < slots.len() && 0 <= j < slots.len() && (#[trigger] slots[i]) is Some
            && (#[trigger] slots[j]) is Some ==> slots[i].unwrap().len() == slots[j].unwrap().len()
}

/// Every present slot of `slots` holds the shard at the same position of `full`.
pub open spec fn fits(slots: Seq<Option<Seq<u8>>>, full: Seq<Seq<u8>>) -> bool {
    &&& slots.len() == full.len()
    &&& forall|i: int| 0 <= i < slots.len() && (#[trigger] slots[i]) is Some ==> slots[i] == Some(full[i])
}

/// `slots` with every absent position filled from `rebuilt`.
pub open spec fn fill(slots: Seq<Option<Seq<u8>>>, rebuilt: Seq<Seq<u8>>) -> Seq<Option<Seq<u8>>> {
    Seq::new(
        slots.len(),
        |i: int|
            if slots[i] is Some {
                slots[i]
            } else {
                Some(rebuilt[i])
            },
    )
}

/// Relies on `ReedSolomon::<galois_8::Field>::new`: it refuses zero data
/// shards, then zero parity shards, then more than 256 shards in all, and
/// otherwise builds the codec.
#[verifier::external_body]
pub(crate) fn rs_new(data_shards: usize, parity_shards: usize) -> (r: Result<RsCodec, RsError>)
    requires
        data_shards + parity_shards <= usize::MAX,
    ensures
        data_shards == 0 ==> (r matches Err(RsError::TooFewDataShards)),
        data_shards > 0 && parity_shards == 0 ==> (r matches Err(RsError::TooFewParityShards)),
        data_shards > 0 && parity_shards > 0 && data_shards + parity_shards > 256 ==> (r matches Err(RsError::TooManyShards)),
        data_shards > 0 && parity_shards > 0 && data_shards + parity_shards <= 256 ==> r is Ok,
        r matches Ok(c) ==> c.k() == data_shards && c.m() == parity_shards,
{
    ReedSolomon::<Gf8>::new(data_shards, parity_shards).map(
        |rs| RsCodec { data_shards, parity_shards, inner: RsInner { rs } },
    )
}

/// Relies on `ReedSolomon::encode` of a codec built with `data_shards` and
/// `parity_shards`: it checks the number of shards, that the first is not
/// empty and that all have its length, before writing anything; it then
/// overwrites the last `parity_shards` slots with the parity of the first
/// `data_shards`, which depends on those shards alone.
#[verifier::external_body]
pub(crate) fn rs_encode(
    codec: &RsCodec,
    data_shards: usize,
    parity_shards: usize,
    shards: &mut Vec<Vec<u8>>,
) -> (r: Result<(), RsError>)
    requires
        codec.k() == data_shards,
        codec.m() == parity_shards,
        1 <= data_shards,
        1 <= parity_shards,
        data_shards + parity_shards <= 256,
    ensures
        old(shards)@.len() < data_shards + parity_shards ==> (r matches Err(RsError::TooFewShards)),
        old(shards)@.len() > data_shards + parity_shards ==> (r matches Err(RsError::TooManyShards)),
        old(shards)@.len() == data_shards + parity_shards && old(shards)@[0]@.len() == 0 ==> (r matches Err(RsError::EmptyShard)),
        old(shards)@.len() == data_shards + parity_shards && old(shards)@[0]@.len() > 0 && !uniform(
            shards_view(old(shards)@),
        ) ==> (r matches Err(RsError::IncorrectShardSize)),
        r is Err ==> final(shards)@ == old(shards)@,
        old(shards)@.len() == data_shards + parity_shards && uniform(shards_view(old(shards)@))
            ==> r is Ok,
        r is Ok ==> shards_view(final(shards)@) == shards_view(old(shards)@).take(
            data_shards as int,
        ) + parity_of(parity_shards as nat, shards_view(old(shards)@).take(data_shards as int)),
        r is Ok ==> final(shards)@.len() == old(shards)@.len(),
        r is Ok ==> uniform(shards_view(final(shards)@)),
{
    codec.inner.rs.encode(shards)
}

/// Relies on `ReedSolomon::reconstruct` of a codec built with `data_shards`
/// and `parity_shards`, on slots that are `Some` or `None`. Before writing
/// anything it checks the number of slots, that present shards are non-empty
/// and of one length, returns at once when all are present, and refuses
/// fewer than `data_shards` present. It then decodes the data from the first
/// `data_shards` present shards, recomputes the missing parity from the data,
/// and fills only the absent slots. Any `data_shards` rows of the code's
/// generator matrix are invertible, so when the present shards are those of
/// a codeword the result is that codeword.
#[verifier::external_body]
pub(crate) fn rs_reconstruct(
    codec: &RsCodec,
    data_shards: usize,
    parity_shards: usize,
    slots: &mut Vec<Option<Vec<u8>>>,
) -> (r: Result<(), RsError>)
    requires
        codec.k() == data_shards,
        codec.m() == parity_shards,
        1 <= data_shards,
        1 <= parity_shards,
        data_shards + parity_shards <= 256,
    ensures
        old(slots)@.len() < data_shards + parity_shards ==> (r matches Err(RsError::TooFewShards)),
        old(slots)@.len() > data_shards + parity_shards ==> (r matches Err(RsError::TooManyShards)),
        old(slots)@.len() == data_shards + parity_shards && !slots_uniform(slots_view(old(slots)@))
            ==> ((r matches Err(RsError::EmptyShard)) || (r matches Err(RsError::IncorrectShardSize))),
        old(slots)@.len() == data_shards + parity_shards && slots_uniform(slots_view(old(slots)@))
            && present_count(slots_view(old(slots)@)) < data_shards ==> (r matches Err(RsError::TooFewShardsPresent)),
        old(slots)@.len() == data_shards + parity_shards && slots_uniform(slots_view(old(slots)@))
            && present_count(slots_view(old(slots)@)) >= data_shards ==> r is Ok,
        r is Err ==> final(slots)@ == old(slots)@,
        r is Ok ==> slots_view(final(slots)@) == fill(
            slots_view(old(slots)@),
            rebuilt_of(parity_shards as nat, slots_view(old(slots)@)),
        ),
        r is Ok ==> forall|d: Seq<Seq<u8>>|
            d.len() == data_shards && uniform(d) && #[trigger] fits(
                slots_view(old(slots)@),
                codeword(parity_shards as nat, d),
            ) ==> slots_view(final(slots)@) == all_slots(codeword(parity_shards as nat, d)),
{
    codec.inner.rs.reconstruct(slots)
}

} // verus!

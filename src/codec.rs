use vstd::prelude::*;

use reed_solomon_erasure::Error as RsError;

use crate::availability::{
    copy_bytes, lemma_loss_beyond_budget, lemma_none_present, lemma_loss_within_budget, lost_count, lost_in_range,
    mark_lost, mark_spec, present_count,
};
use crate::engine::{
    codeword, empty_shards, encoded, fill, fits, rebuilt_of, rs_encode, rs_new, rs_reconstruct,
    same_len, slots_same_len, slots_uniform, uniform, RsCodec,
};
use crate::error::CodecError;
use crate::partition::{shard_len, shards_view, split_data, split_spec};
use crate::recombine::{all_slots, combine_shards, combine_spec, lemma_shard_len_covers,
    lemma_split_combine_round_trip, slots_view};

verus! {

/// The library's error for a failure reported by the Reed-Solomon engine.
pub open spec fn engine_error(e: RsError) -> CodecError {
    match e {
        RsError::TooFewShardsPresent => CodecError::ReconstructionFailure,
        RsError::EmptyShard => CodecError::ShapeMismatch,
        RsError::IncorrectShardSize => CodecError::ShapeMismatch,
        _ => CodecError::InvalidParameter,
    }
}

/// Translates an engine failure into the library's error.
pub fn from_engine_error(e: RsError) -> (r: CodecError)
    ensures
        r == engine_error(e),
{
    match e {
        RsError::TooFewShardsPresent => CodecError::ReconstructionFailure,
        RsError::EmptyShard => CodecError::ShapeMismatch,
        RsError::IncorrectShardSize => CodecError::ShapeMismatch,
        _ => CodecError::InvalidParameter,
    }
}

/// The byte contents of a result holding a shard set.
pub open spec fn shards_result(r: Result<Vec<Vec<u8>>, CodecError>) -> Result<Seq<Seq<u8>>, CodecError> {
    match r {
        Ok(v) => Ok(shards_view(v@)),
        Err(e) => Err(e),
    }
}

/// The byte contents of a result holding a payload.
pub open spec fn bytes_result(r: Result<Vec<u8>, CodecError>) -> Result<Seq<u8>, CodecError> {
    match r {
        Ok(v) => Ok(v@),
        Err(e) => Err(e),
    }
}

/// What encoding the data shards `data` with a `k + m` code yields.
pub open spec fn encode_spec(k: nat, m: nat, data: Seq<Seq<u8>>) -> Result<Seq<Seq<u8>>, CodecError> {
    if data.len() != k {
        Err(CodecError::InvalidParameter)
    } else if !same_len(data) {
        Err(CodecError::ShapeMismatch)
    } else {
        Ok(encoded(m, data))
    }
}

/// What reconstructing the shard set `slots` with a `k + m` code yields.
/// Present shards that are empty need no code: the absent slots become
/// empty shards too.
pub open spec fn reconstruct_spec(k: nat, m: nat, slots: Seq<Option<Seq<u8>>>) -> Result<
    Seq<Option<Seq<u8>>>,
    CodecError,
> {
    if slots.len() != k + m {
        Err(CodecError::InvalidParameter)
    } else if !slots_same_len(slots) {
        Err(CodecError::ShapeMismatch)
    } else if present_count(slots) < k {
        Err(CodecError::ReconstructionFailure)
    } else if slots_uniform(slots) {
        Ok(fill(slots, rebuilt_of(m, slots)))
    } else {
        Ok(fill(slots, empty_shards(k + m)))
    }
}

/// What reconstructing `slots` and recombining its first `k` shards to `len`
/// bytes yields.
pub open spec fn recover_spec(k: nat, m: nat, slots: Seq<Option<Seq<u8>>>, len: nat) -> Result<
    Seq<u8>,
    CodecError,
> {
    match reconstruct_spec(k, m, slots) {
        Ok(full) => combine_spec(full.take(k as int), len),
        Err(e) => Err(e),
    }
}

/// The shards of a payload share one length, which is zero exactly when the
/// payload is empty.
pub proof fn lemma_split_same_len(p: Seq<u8>, k: nat)
    requires
        k >= 1,
    ensures
        split_spec(p, k).len() == k,
        same_len(split_spec(p, k)),
        split_spec(p, k)[0].len() == 0 <==> p.len() == 0,
{
    let s = shard_len(p.len(), k);
    lemma_shard_len_covers(p.len(), k);
    assert(s > 0 <==> p.len() > 0) by (nonlinear_arith)
        requires
            k * s >= p.len(),
            k * s < p.len() + k,
            k >= 1,
    ;
}

/// Encoding is a function of the code's parameters and the data shards:
/// the same data shards give byte-identical parity; reconstruction is a
/// function of the parameters and the shard set: the same present shards at
/// the same positions give byte-identical recovered shards.
pub proof fn lemma_deterministic(
    k: nat,
    m: nat,
    a: Seq<Seq<u8>>,
    b: Seq<Seq<u8>>,
    s: Seq<Option<Seq<u8>>>,
    t: Seq<Option<Seq<u8>>>,
)
    requires
        a =~~= b,
        s =~~= t,
    ensures
        encode_spec(k, m, a) == encode_spec(k, m, b),
        reconstruct_spec(k, m, s) == reconstruct_spec(k, m, t),
{
}

/// A Reed-Solomon code over GF(2^8) with `k` data shards and `m` parity
/// shards, `k, m >= 1` and `k + m <= 256`, built with those counts.
pub struct Engine {
    data_shards: usize,
    parity_shards: usize,
    codec: RsCodec,
}

impl Engine {
    #[verifier::type_invariant]
    spec fn valid(self) -> bool {
        &&& 1 <= self.data_shards
        &&& 1 <= self.parity_shards
        &&& self.data_shards + self.parity_shards <= 256
        &&& self.codec.k() == self.data_shards
        &&& self.codec.m() == self.parity_shards
    }

    /// The number of data shards, `k`.
    pub closed spec fn k(&self) -> nat {
        self.data_shards as nat
    }

    /// The number of parity shards, `m`.
    pub closed spec fn m(&self) -> nat {
        self.parity_shards as nat
    }

    /// Builds an engine with `data_shards` data and `parity_shards` parity
    /// shards; both must be at least one and their sum at most 256.
    pub fn new(data_shards: usize, parity_shards: usize) -> (r: Result<Engine, CodecError>)
        ensures
            (1 <= data_shards && 1 <= parity_shards && data_shards + parity_shards <= 256) <==> r is Ok,
            r matches Ok(e) ==> e.k() == data_shards && e.m() == parity_shards,
            r matches Err(e) ==> e == CodecError::InvalidParameter,
    {
        if data_shards == 0 || parity_shards == 0 || data_shards > 256 || parity_shards > 256 {
            return Err(CodecError::InvalidParameter);
        }
        match rs_new(data_shards, parity_shards) {
            Ok(codec) => Ok(Engine { data_shards, parity_shards, codec }),
            Err(_) => Err(CodecError::InvalidParameter),
        }
    }

    /// Computes the `m` parity shards of the `k` data shards `data` and
    /// returns the full set of `k + m` shards, data first. Empty data shards
    /// get empty parity shards.
    pub fn encode(&self, data: &[Vec<u8>]) -> (r: Result<Vec<Vec<u8>>, CodecError>)
        ensures
            shards_result(r) == encode_spec(self.k(), self.m(), shards_view(data@)),
            r matches Ok(v) ==> v@.len() == self.k() + self.m() && same_len(shards_view(v@)),
    {
        proof {
            use_type_invariant(self);
        }
        let k = self.data_shards;
        let m = self.parity_shards;
        if data.len() != k {
            return Err(CodecError::InvalidParameter);
        }
        let ghost dv = shards_view(data@);
        let size = data[0].len();
        let mut shards: Vec<Vec<u8>> = Vec::with_capacity(k + m);
        let mut i: usize = 0;
        assert(shards_view(shards@) =~= dv.take(0));
        while i < k
            invariant
                k == data@.len(),
                i <= k,
                shards@.len() == i,
                dv == shards_view(data@),
                shards_view(shards@) == dv.take(i as int),
            decreases k - i,
        {
            let copy = copy_bytes(&data[i]);
            let ghost before = shards@;
            assert(shards_view(before) == dv.take(i as int));
            shards.push(copy);
            proof {
                assert(shards@.drop_last() == before);
                assert(shards_view(shards@)[i as int] == dv[i as int]);
                assert forall|t: int| 0 <= t < i implies #[trigger] shards_view(shards@)[t]
                    == dv[t] by {
                    assert(shards@[t] == before[t]);
                    assert(shards_view(before)[t] == dv.take(i as int)[t]);
                }
            }
            i = i + 1;
            assert(shards_view(shards@) =~= dv.take(i as int));
        }
        let mut j: usize = 0;
        while j < m
            invariant
                k == data@.len(),
                k >= 1,
                j <= m,
                dv == shards_view(data@),
                size == dv[0].len(),
                shards@.len() == k + j,
                shards_view(shards@).take(k as int) == dv,
                forall|t: int| k <= t < k + j ==> (#[trigger] shards@[t])@.len() == size,
            decreases m - j,
        {
            let mut zeros: Vec<u8> = Vec::with_capacity(size);
            let mut z: usize = 0;
            while z < size
                invariant
                    z <= size,
                    zeros@.len() == z,
                decreases size - z,
            {
                zeros.push(0u8);
                z = z + 1;
            }
            let ghost before = shards_view(shards@);
            shards.push(zeros);
            assert(shards_view(shards@).take(k as int) =~= before.take(k as int));
            j = j + 1;
        }
        let ghost sv = shards_view(shards@);
        assert(sv.take(k as int) =~= dv);
        assert forall|t: int| 0 <= t < k implies #[trigger] sv[t] == dv[t] by {
            assert(sv.take(k as int)[t] == sv[t]);
        }
        if size == 0 {
            let mut t: usize = 0;
            while t < k
                invariant
                    k == data@.len(),
                    k as nat == self.k(),
                    k >= 1,
                    t <= k,
                    dv == shards_view(data@),
                    dv[0].len() == 0,
                    forall|a: int| 0 <= a < t ==> (#[trigger] dv[a]).len() == 0,
                decreases k - t,
            {
                assert(dv[t as int] == data@[t as int]@);
                if data[t].len() != 0 {
                    proof {
                        assert(dv[t as int].len() != dv[0].len());
                        assert(!same_len(dv));
                    }
                    return Err(CodecError::ShapeMismatch);
                }
                t = t + 1;
            }
            proof {
                let want = dv + empty_shards(m as nat);
                assert forall|a: int| 0 <= a < sv.len() implies #[trigger] sv[a] =~= want[a] by {
                    if a < k {
                        assert(sv[a] == dv[a]);
                    }
                }
                assert(sv =~= want);
                assert(same_len(dv));
            }
            return Ok(shards);
        }
        assert(uniform(sv) <==> same_len(dv)) by {
            if same_len(dv) {
                assert forall|t: int| 0 <= t < sv.len() implies (#[trigger] sv[t]).len()
                    == sv[0].len() by {
                    if t < k {
                        assert(sv[t] == dv[t]);
                    }
                    assert(sv[0] == dv[0]);
                }
            }
            if uniform(sv) {
                assert forall|t: int| 0 <= t < dv.len() implies (#[trigger] dv[t]).len()
                    == dv[0].len() by {
                    assert(sv[t] == dv[t]);
                    assert(sv[0] == dv[0]);
                }
            }
        }
        match rs_encode(&self.codec, k, m, &mut shards) {
            Ok(()) => Ok(shards),
            Err(e) => Err(from_engine_error(e)),
        }
    }

    /// Splits `payload` into `k` zero-padded data shards and encodes them.
    pub fn encode_payload(&self, payload: &[u8]) -> (r: Result<Vec<Vec<u8>>, CodecError>)
        ensures
            r matches Ok(v) && shards_view(v@) == encoded(self.m(), split_spec(payload@, self.k()))
                && v@.len() == self.k() + self.m() && same_len(shards_view(v@)),
    {
        proof {
            use_type_invariant(self);
        }
        let data = match split_data(payload, self.data_shards) {
            Ok(d) => d,
            Err(e) => {
                return Err(e);
            },
        };
        proof {
            lemma_split_same_len(payload@, self.k());
        }
        self.encode(data.as_slice())
    }

    /// Fills every absent slot of `slots` with the shard that the code
    /// recovers from the present ones (an empty shard where the present ones
    /// are empty). Fails, leaving `slots` untouched, when the set has the
    /// wrong size, its present shards disagree in length, or fewer than `k`
    /// are present.
    pub fn reconstruct(&self, slots: &mut Vec<Option<Vec<u8>>>) -> (r: Result<(), CodecError>)
        ensures
            r is Ok ==> reconstruct_spec(self.k(), self.m(), slots_view(old(slots)@)) == Ok::<
                Seq<Option<Seq<u8>>>,
                CodecError,
            >(slots_view(final(slots)@)),
            r matches Err(e) ==> reconstruct_spec(self.k(), self.m(), slots_view(old(slots)@))
                == Err::<Seq<Option<Seq<u8>>>, CodecError>(e),
            r is Err ==> final(slots)@ == old(slots)@,
            r is Ok ==> forall|d: Seq<Seq<u8>>|
                d.len() == self.k() && same_len(encoded(self.m(), d)) && #[trigger] fits(
                    slots_view(old(slots)@),
                    encoded(self.m(), d),
                ) ==> slots_view(final(slots)@) == all_slots(encoded(self.m(), d)),
    {
        proof {
            use_type_invariant(self);
        }
        let k = self.data_shards;
        let n = self.data_shards + self.parity_shards;
        let ghost sv = slots_view(slots@);
        if slots.len() != n {
            return Err(CodecError::InvalidParameter);
        }
        let mut f: usize = 0;
        let mut searching = true;
        while searching && f < n
            invariant
                n == slots@.len(),
                sv == slots_view(slots@),
                f <= n,
                forall|a: int| 0 <= a < f ==> (#[trigger] sv[a]) is None,
                !searching ==> f < n && sv[f as int] is Some,
            decreases n - f + if searching {
                1int
            } else {
                0int
            },
        {
            if slots[f].is_some() {
                searching = false;
            } else {
                f = f + 1;
            }
        }
        let zero = !searching && match &slots[f] {
            Some(b) => b.len() == 0,
            None => false,
        };
        if zero {
            proof {
                let b = slots@[f as int].unwrap()@;
                assert(sv[f as int] == Some(b));
                assert(b =~= Seq::<u8>::empty());
            }
            return self.fill_empty(slots, f);
        }
        proof {
            assert(slots_uniform(sv) <==> slots_same_len(sv)) by {
                if slots_same_len(sv) {
                    assert forall|i: int| 0 <= i < sv.len() && (#[trigger] sv[i]) is Some
                        implies sv[i].unwrap().len() > 0 by {
                        assert(sv[f as int] is Some);
                    }
                }
            }
        }
        match rs_reconstruct(&self.codec, self.data_shards, self.parity_shards, slots) {
            Ok(()) => {
                proof {
                    assert forall|d: Seq<Seq<u8>>|
                        d.len() == self.k() && same_len(encoded(self.m(), d)) && #[trigger] fits(
                            sv,
                            encoded(self.m(), d),
                        ) implies slots_view(slots@) == all_slots(encoded(self.m(), d)) by {
                        let enc = encoded(self.m(), d);
                        assert(present_count(sv) >= self.k());
                        if searching {
                            lemma_none_present(sv);
                        }
                        assert(sv[f as int] is Some);
                        assert(sv[f as int] == Some(enc[f as int]));
                        assert(enc[0] == d[0]);
                        assert(d[0].len() > 0);
                        assert(enc == codeword(self.m(), d));
                        assert(uniform(d)) by {
                            assert forall|t: int| 0 <= t < d.len() implies (#[trigger] d[t]).len()
                                == d[0].len() by {
                                assert(enc[t] == d[t]);
                            }
                        }
                        assert(fits(sv, codeword(self.m(), d)));
                    }
                }
                Ok(())
            },
            Err(e) => Err(from_engine_error(e)),
        }
    }

    /// Completes a shard set whose first present shard, at `f`, is empty:
    /// every present shard must be empty and at least `k` present; absent
    /// slots then become empty shards.
    fn fill_empty(&self, slots: &mut Vec<Option<Vec<u8>>>, f: usize) -> (r: Result<(), CodecError>)
        requires
            old(slots)@.len() == self.k() + self.m(),
            f < old(slots)@.len(),
            slots_view(old(slots)@)[f as int] == Some(Seq::<u8>::empty()),
            forall|a: int| 0 <= a < f ==> (#[trigger] slots_view(old(slots)@)[a]) is None,
        ensures
            r is Ok ==> reconstruct_spec(self.k(), self.m(), slots_view(old(slots)@)) == Ok::<
                Seq<Option<Seq<u8>>>,
                CodecError,
            >(slots_view(final(slots)@)),
            r matches Err(e) ==> reconstruct_spec(self.k(), self.m(), slots_view(old(slots)@))
                == Err::<Seq<Option<Seq<u8>>>, CodecError>(e),
            r is Err ==> final(slots)@ == old(slots)@,
            r is Ok ==> forall|d: Seq<Seq<u8>>|
                d.len() == self.k() && same_len(encoded(self.m(), d)) && #[trigger] fits(
                    slots_view(old(slots)@),
                    encoded(self.m(), d),
                ) ==> slots_view(final(slots)@) == all_slots(encoded(self.m(), d)),
    {
        proof {
            use_type_invariant(self);
        }
        let k = self.data_shards;
        let n = self.data_shards + self.parity_shards;
        let ghost sv = slots_view(slots@);
        let mut count: usize = 0;
        let mut i: usize = 0;
        while i < n
            invariant
                n == slots@.len(),
                n == self.k() + self.m(),
                k == self.k(),
                slots@ == old(slots)@,
                sv == slots_view(slots@),
                f < n,
                sv[f as int] == Some(Seq::<u8>::empty()),
                i <= n,
                count <= i,
                count == present_count(sv.take(i as int)),
                forall|a: int| 0 <= a < i && (#[trigger] sv[a]) is Some ==> sv[a].unwrap().len() == 0,
            decreases n - i,
        {
            let ghost before = sv.take(i as int);
            match &slots[i] {
                Some(b) => {
                    if b.len() != 0 {
                        proof {
                            assert(sv[i as int] == Some(b@));
                            assert(sv[i as int].unwrap().len() != sv[f as int].unwrap().len());
                            assert(!slots_same_len(sv));
                        }
                        return Err(CodecError::ShapeMismatch);
                    }
                    count = count + 1;
                },
                None => {},
            }
            assert(sv.take(i + 1).drop_last() =~= before);
            i = i + 1;
        }
        assert(sv.take(n as int) =~= sv);
        assert(slots_same_len(sv));
        assert(!slots_uniform(sv));
        if count < k {
            return Err(CodecError::ReconstructionFailure);
        }
        let ghost want = fill(sv, empty_shards(n as nat));
        i = 0;
        while i < n
            invariant
                n == slots@.len(),
                want == fill(sv, empty_shards(n as nat)),
                sv.len() == n,
                i <= n,
                forall|a: int| 0 <= a < i ==> (#[trigger] slots_view(slots@)[a]) == want[a],
                forall|a: int| i <= a < n ==> (#[trigger] slots_view(slots@)[a]) == sv[a],
            decreases n - i,
        {
            let ghost before = slots@;
            if slots[i].is_none() {
                let e: Vec<u8> = Vec::new();
                assert(e@ =~= Seq::<u8>::empty());
                slots[i] = Some(e);
                assert(slots@ == before.update(i as int, Some(e)));
                assert(slots_view(slots@)[i as int] == Some(e@));
                assert(slots_view(before)[i as int] is None);
                assert(sv[i as int] is None);
                assert(empty_shards(n as nat)[i as int] == Seq::<u8>::empty());
                assert(want[i as int] == Some(Seq::<u8>::empty()));
                assert forall|a: int| 0 <= a < n && a != i implies #[trigger] slots_view(slots@)[a]
                    == slots_view(before)[a] by {
                    assert(slots@[a] == before[a]);
                }
            }
            i = i + 1;
        }
        assert(slots_view(slots@) =~= want);
        proof {
            assert forall|d: Seq<Seq<u8>>|
                d.len() == self.k() && same_len(encoded(self.m(), d)) && #[trigger] fits(
                    sv,
                    encoded(self.m(), d),
                ) implies slots_view(slots@) == all_slots(encoded(self.m(), d)) by {
                let enc = encoded(self.m(), d);
                assert(sv[f as int] == Some(enc[f as int]));
                assert forall|a: int| 0 <= a < n implies #[trigger] want[a] == all_slots(enc)[a] by {
                    assert(enc[a].len() == enc[0].len());
                    assert(enc[a] =~= Seq::<u8>::empty());
                }
                assert(want =~= all_slots(enc));
            }
        }
        Ok(())
    }

    /// Reconstructs `slots` and recombines its first `k` shards into a
    /// payload of `original_len` bytes.
    pub fn recover_payload(&self, slots: Vec<Option<Vec<u8>>>, original_len: usize) -> (r: Result<
        Vec<u8>,
        CodecError,
    >)
        ensures
            bytes_result(r) == recover_spec(
                self.k(),
                self.m(),
                slots_view(slots@),
                original_len as nat,
            ),
            forall|d: Seq<Seq<u8>>|
                d.len() == self.k() && slots@.len() == self.k() + self.m() && same_len(
                    encoded(self.m(), d),
                ) && present_count(slots_view(slots@)) >= self.k() && #[trigger] fits(
                    slots_view(slots@),
                    encoded(self.m(), d),
                ) ==> bytes_result(r) == combine_spec(all_slots(d), original_len as nat),
    {
        proof {
            use_type_invariant(self);
        }
        let ghost sv = slots_view(slots@);
        let mut slots = slots;
        match self.reconstruct(&mut slots) {
            Ok(()) => {},
            Err(e) => {
                proof {
                    assert forall|d: Seq<Seq<u8>>|
                        d.len() == self.k() && sv.len() == self.k() + self.m() && same_len(
                            encoded(self.m(), d),
                        ) && present_count(sv) >= self.k() && #[trigger] fits(
                            sv,
                            encoded(self.m(), d),
                        ) implies false by {
                        let enc = encoded(self.m(), d);
                        assert forall|i: int, j: int|
                            0 <= i < sv.len() && 0 <= j < sv.len() && (#[trigger] sv[i]) is Some
                                && (#[trigger] sv[j]) is Some implies sv[i].unwrap().len()
                            == sv[j].unwrap().len() by {
                            assert(enc[i].len() == enc[0].len());
                            assert(enc[j].len() == enc[0].len());
                        }
                    }
                }
                return Err(e);
            },
        }
        let ghost full = slots_view(slots@);
        slots.truncate(self.data_shards);
        assert(slots_view(slots@) =~= full.take(self.k() as int));
        let r = combine_shards(slots.as_slice(), original_len);
        proof {
            assert forall|d: Seq<Seq<u8>>|
                d.len() == self.k() && sv.len() == self.k() + self.m() && same_len(
                    encoded(self.m(), d),
                ) && present_count(sv) >= self.k() && #[trigger] fits(
                    sv,
                    encoded(self.m(), d),
                ) implies bytes_result(r) == combine_spec(all_slots(d), original_len as nat) by {
                let enc = encoded(self.m(), d);
                assert(full == all_slots(enc));
                assert(enc.take(self.k() as int) =~= d);
                assert(full.take(self.k() as int) =~= all_slots(d));
            }
        }
        r
    }

    /// The whole shard lifecycle on one payload: split and encode it, mark
    /// the positions in `lost` absent, reconstruct, and recombine. With at
    /// most `m` distinct positions lost the payload comes back exactly; with
    /// more, reconstruction fails.
    pub fn round_trip(&self, payload: &[u8], lost: &[usize]) -> (r: Result<Vec<u8>, CodecError>)
        ensures
            !lost_in_range(lost@, self.k() + self.m()) ==> r == Err::<Vec<u8>, CodecError>(
                CodecError::IndexOutOfRange,
            ),
            lost_in_range(lost@, self.k() + self.m()) && lost_count(lost@, self.k() + self.m())
                <= self.m() ==> bytes_result(r) == Ok::<Seq<u8>, CodecError>(payload@),
            lost_in_range(lost@, self.k() + self.m()) && lost_count(lost@, self.k() + self.m())
                > self.m() ==> r == Err::<Vec<u8>, CodecError>(CodecError::ReconstructionFailure),
    {
        proof {
            use_type_invariant(self);
        }
        let shards = match self.encode_payload(payload) {
            Ok(v) => v,
            Err(e) => {
                return Err(e);
            },
        };
        let ghost d = split_spec(payload@, self.k());
        let ghost cw = shards_view(shards@);
        let slots = match mark_lost(shards.as_slice(), lost) {
            Ok(v) => v,
            Err(e) => {
                return Err(e);
            },
        };
        let ghost marked = slots_view(slots@);
        proof {
            lemma_split_same_len(payload@, self.k());
            assert(marked == mark_spec(cw, lost@));
            assert(fits(marked, cw));
            assert(cw.len() == self.k() + self.m());
            assert(slots_same_len(marked)) by {
                assert forall|i: int, j: int|
                    0 <= i < marked.len() && 0 <= j < marked.len() && (#[trigger] marked[i]) is Some
                        && (#[trigger] marked[j]) is Some implies marked[i].unwrap().len()
                    == marked[j].unwrap().len() by {
                    assert(cw[i].len() == cw[0].len());
                    assert(cw[j].len() == cw[0].len());
                }
            }
            if lost_count(lost@, cw.len()) <= self.m() {
                lemma_loss_within_budget(cw, lost@, self.k(), self.m());
                lemma_split_combine_round_trip(payload@, self.k());
                assert(cw == encoded(self.m(), d));
            } else {
                lemma_loss_beyond_budget(cw, lost@, self.k(), self.m());
            }
        }
        self.recover_payload(slots, payload.len())
    }

    /// The number of data shards.
    pub fn data_shards(&self) -> (r: usize)
        ensures
            r == self.k(),
    {
        self.data_shards
    }

    /// The number of parity shards.
    pub fn parity_shards(&self) -> (r: usize)
        ensures
            r == self.m(),
    {
        self.parity_shards
    }

    /// The number of shard slots, `k + m`.
    pub fn total_shards(&self) -> (r: usize)
        ensures
            r == self.k() + self.m(),
    {
        proof {
            use_type_invariant(self);
        }
        self.data_shards + self.parity_shards
    }
}

} // verus!

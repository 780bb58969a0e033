use shardcodec::{combine_shards, mark_lost, split_data, CodecError, Engine};

const GREETING: &[u8] = b"Hello, Solana!";

fn present(shards: &[Vec<u8>]) -> Vec<Option<Vec<u8>>> {
    shards.iter().cloned().map(Some).collect()
}

#[test]
fn scenario_hello_solana() {
    let shards = split_data(GREETING, 4).unwrap();
    assert_eq!(
        shards,
        vec![
            b"Hell".to_vec(),
            b"o, S".to_vec(),
            b"olan".to_vec(),
            vec![b'a', b'!', 0, 0],
        ]
    );
    let engine = Engine::new(4, 2).unwrap();
    let all = engine.encode(&shards).unwrap();
    assert_eq!(all.len(), 6);
    assert_eq!(&all[..4], &shards[..]);
    let slots = mark_lost(&all, &[1, 4]).unwrap();
    assert!(slots[1].is_none());
    assert!(slots[4].is_none());
    let out = engine.recover_payload(slots, GREETING.len()).unwrap();
    assert_eq!(out, GREETING.to_vec());
}

#[test]
fn scenario_hello_solana_round_trip() {
    let engine = Engine::new(4, 2).unwrap();
    assert_eq!(engine.round_trip(GREETING, &[1, 4]), Ok(GREETING.to_vec()));
}

#[test]
fn empty_payload_splits_into_empty_shards() {
    let shards = split_data(&[], 4).unwrap();
    assert_eq!(shards, vec![Vec::<u8>::new(); 4]);
    let out = combine_shards(&present(&shards), 0).unwrap();
    assert!(out.is_empty());
}

#[test]
fn divisible_payload_has_no_padding() {
    let payload: Vec<u8> = (1..=12).collect();
    let shards = split_data(&payload, 4).unwrap();
    assert_eq!(shards.len(), 4);
    for (i, shard) in shards.iter().enumerate() {
        assert_eq!(shard, &payload[i * 3..(i + 1) * 3].to_vec());
    }
    assert_eq!(shards.concat(), payload);
}

#[test]
fn split_shapes_and_zero_padding() {
    let payload: Vec<u8> = vec![9, 8, 7, 6, 5];
    let shards = split_data(&payload, 4).unwrap();
    assert_eq!(shards, vec![vec![9, 8], vec![7, 6], vec![5, 0], vec![0, 0]]);
    let single = split_data(&payload, 1).unwrap();
    assert_eq!(single, vec![payload.clone()]);
    let wide = split_data(&payload, 7).unwrap();
    assert_eq!(wide.len(), 7);
    assert!(wide.iter().all(|s| s.len() == 1));
    assert_eq!(wide[5], vec![0]);
    assert_eq!(wide[6], vec![0]);
}

#[test]
fn split_rejects_zero_shards() {
    assert_eq!(split_data(GREETING, 0), Err(CodecError::InvalidParameter));
}

#[test]
fn split_combine_round_trip() {
    for k in 1..=9 {
        for len in 0..=20 {
            let payload: Vec<u8> = (0..len).map(|b| (b * 7 + 3) as u8).collect();
            let shards = split_data(&payload, k).unwrap();
            let out = combine_shards(&present(&shards), payload.len()).unwrap();
            assert_eq!(out, payload);
        }
    }
}

#[test]
fn combine_concatenates_and_truncates() {
    let slots = vec![Some(vec![1, 2]), Some(vec![3]), Some(vec![4, 5, 6])];
    assert_eq!(combine_shards(&slots, 6), Ok(vec![1, 2, 3, 4, 5, 6]));
    assert_eq!(combine_shards(&slots, 4), Ok(vec![1, 2, 3, 4]));
    assert_eq!(combine_shards(&slots, 0), Ok(vec![]));
}

#[test]
fn combine_reports_missing_shard() {
    let slots = vec![Some(vec![1, 2]), None, Some(vec![4, 5])];
    assert_eq!(combine_shards(&slots, 2), Err(CodecError::MissingShard));
}

#[test]
fn combine_reports_invalid_length() {
    let slots = vec![Some(vec![1, 2]), Some(vec![3, 4])];
    assert_eq!(combine_shards(&slots, 5), Err(CodecError::InvalidLength));
}

#[test]
fn mark_lost_collapses_duplicates() {
    let shards = vec![vec![1], vec![2], vec![3]];
    let slots = mark_lost(&shards, &[2, 0, 2]).unwrap();
    assert_eq!(slots, vec![None, Some(vec![2]), None]);
    let untouched = mark_lost(&shards, &[]).unwrap();
    assert_eq!(untouched, present(&shards));
}

#[test]
fn mark_lost_rejects_out_of_range() {
    let shards = vec![vec![1], vec![2], vec![3]];
    assert_eq!(mark_lost(&shards, &[0, 3]), Err(CodecError::IndexOutOfRange));
}

#[test]
fn engine_parameters() {
    let engine = Engine::new(4, 2).unwrap();
    assert_eq!(engine.data_shards(), 4);
    assert_eq!(engine.parity_shards(), 2);
    assert_eq!(engine.total_shards(), 6);
    assert!(Engine::new(1, 255).is_ok());
    assert!(Engine::new(0, 2).is_err());
    assert!(Engine::new(4, 0).is_err());
    assert!(Engine::new(200, 57).is_err());
    assert!(Engine::new(usize::MAX, usize::MAX).is_err());
    assert_eq!(Engine::new(0, 2).err(), Some(CodecError::InvalidParameter));
}

#[test]
fn encode_computes_parity() {
    let engine = Engine::new(4, 2).unwrap();
    let shards = split_data(GREETING, 4).unwrap();
    let all = engine.encode(&shards).unwrap();
    assert!(all.iter().all(|s| s.len() == 4));
    assert_ne!(all[4], vec![0u8; 4]);
    assert_ne!(all[5], vec![0u8; 4]);
    assert_ne!(all[4], all[5]);
}

#[test]
fn encode_is_deterministic() {
    let engine = Engine::new(4, 2).unwrap();
    let shards = split_data(GREETING, 4).unwrap();
    let first = engine.encode(&shards).unwrap();
    let second = engine.encode(&shards).unwrap();
    assert_eq!(first, second);
    let other = Engine::new(4, 2).unwrap();
    assert_eq!(other.encode(&shards).unwrap(), first);
}

#[test]
fn reconstruct_is_deterministic() {
    let engine = Engine::new(4, 2).unwrap();
    let all = engine.encode_payload(GREETING).unwrap();
    let mut a = mark_lost(&all, &[0, 5]).unwrap();
    let mut b = a.clone();
    engine.reconstruct(&mut a).unwrap();
    engine.reconstruct(&mut b).unwrap();
    assert_eq!(a, b);
    assert_eq!(a, present(&all));
}

#[test]
fn encode_rejects_bad_shapes() {
    let engine = Engine::new(3, 2).unwrap();
    assert_eq!(
        engine.encode(&[vec![1, 2], vec![3, 4]]),
        Err(CodecError::InvalidParameter)
    );
    assert_eq!(
        engine.encode(&[vec![1, 2], vec![3], vec![5, 6]]),
        Err(CodecError::ShapeMismatch)
    );
    assert_eq!(
        engine.encode(&[vec![], vec![1], vec![]]),
        Err(CodecError::ShapeMismatch)
    );
}

#[test]
fn empty_shards_encode_to_empty_parity() {
    let engine = Engine::new(3, 2).unwrap();
    assert_eq!(
        engine.encode(&[vec![], vec![], vec![]]),
        Ok(vec![Vec::<u8>::new(); 5])
    );
    assert_eq!(engine.encode_payload(&[]), Ok(vec![Vec::<u8>::new(); 5]));
}

#[test]
fn empty_shards_reconstruct_to_empty() {
    let engine = Engine::new(2, 1).unwrap();
    let mut slots = vec![Some(vec![]), None, Some(vec![])];
    assert_eq!(engine.reconstruct(&mut slots), Ok(()));
    assert_eq!(slots, vec![Some(vec![]); 3]);
    let mut sparse: Vec<Option<Vec<u8>>> = vec![None, None, Some(vec![])];
    assert_eq!(engine.reconstruct(&mut sparse), Err(CodecError::ReconstructionFailure));
    assert_eq!(sparse, vec![None, None, Some(vec![])]);
    let mut mixed = vec![Some(vec![]), None, Some(vec![7])];
    assert_eq!(engine.reconstruct(&mut mixed), Err(CodecError::ShapeMismatch));
}

#[test]
fn reconstruct_refills_every_lost_slot() {
    let engine = Engine::new(4, 2).unwrap();
    let all = engine.encode_payload(GREETING).unwrap();
    for a in 0..6 {
        for b in 0..6 {
            let mut slots = mark_lost(&all, &[a, b]).unwrap();
            assert_eq!(engine.reconstruct(&mut slots), Ok(()));
            assert_eq!(slots, present(&all));
        }
    }
}

#[test]
fn redundancy_within_budget() {
    let payload: Vec<u8> = (0..37).map(|b| (b * 31 + 5) as u8).collect();
    let engine = Engine::new(5, 3).unwrap();
    for a in 0..8 {
        for b in 0..8 {
            for c in 0..8 {
                assert_eq!(engine.round_trip(&payload, &[a, b, c]), Ok(payload.clone()));
            }
        }
    }
}

#[test]
fn loss_beyond_budget_fails() {
    let engine = Engine::new(4, 2).unwrap();
    assert_eq!(
        engine.round_trip(GREETING, &[0, 2, 5]),
        Err(CodecError::ReconstructionFailure)
    );
    let all = engine.encode_payload(GREETING).unwrap();
    let mut slots = mark_lost(&all, &[1, 3, 4]).unwrap();
    let before = slots.clone();
    assert_eq!(engine.reconstruct(&mut slots), Err(CodecError::ReconstructionFailure));
    assert_eq!(slots, before);
}

#[test]
fn reconstruct_rejects_bad_sets() {
    let engine = Engine::new(2, 1).unwrap();
    let mut short = vec![Some(vec![1]), None];
    assert_eq!(engine.reconstruct(&mut short), Err(CodecError::InvalidParameter));
    let mut uneven = vec![Some(vec![1]), None, Some(vec![1, 2])];
    assert_eq!(engine.reconstruct(&mut uneven), Err(CodecError::ShapeMismatch));
    let mut empty_first = vec![Some(vec![]), Some(vec![1]), None];
    assert_eq!(engine.reconstruct(&mut empty_first), Err(CodecError::ShapeMismatch));
}

#[test]
fn round_trip_errors() {
    let engine = Engine::new(4, 2).unwrap();
    assert_eq!(engine.round_trip(&[], &[1, 4]), Ok(vec![]));
    assert_eq!(
        engine.round_trip(&[], &[0, 1, 2]),
        Err(CodecError::ReconstructionFailure)
    );
    assert_eq!(engine.round_trip(GREETING, &[6]), Err(CodecError::IndexOutOfRange));
    assert_eq!(engine.round_trip(GREETING, &[1, 1, 1, 4]), Ok(GREETING.to_vec()));
}

#[test]
fn recover_reports_invalid_length() {
    let engine = Engine::new(4, 2).unwrap();
    let all = engine.encode_payload(GREETING).unwrap();
    let slots = mark_lost(&all, &[2]).unwrap();
    assert_eq!(engine.recover_payload(slots, 17), Err(CodecError::InvalidLength));
}

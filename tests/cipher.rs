use transducer_byte_encryption::model::KEY_LEN;
use transducer_byte_encryption::transducer::{Transducer, TransducerError};

/// Key bytes for the identity table (every pair maps to itself), with the
/// entries at `a` and `b` swapped, so the forward table stays a bijection.
fn swapped_identity_key(start: u8, a: (u8, u8), b: (u8, u8)) -> Vec<u8> {
    let mut key = Vec::with_capacity(KEY_LEN);
    key.push(start);
    for s in 0..=255u8 {
        for i in 0..=255u8 {
            let mut entry = (s, i);
            if entry == a {
                entry = b;
            } else if entry == b {
                entry = a;
            }
            key.push(entry.0);
            key.push(entry.1);
        }
    }
    key
}

fn scenario_transducer() -> Transducer {
    let key = swapped_identity_key(5, (5, 65), (9, 200));
    Transducer::from_bytes(&key).unwrap()
}

#[test]
fn single_byte_scenario_encodes() {
    let t = scenario_transducer();
    assert_eq!(t.encrypt(&vec![65]), vec![200, 9]);
}

#[test]
fn single_byte_scenario_decodes() {
    let t = scenario_transducer();
    assert_eq!(t.decrypt(&vec![200, 9]), Ok(vec![65]));
}

#[test]
fn empty_plaintext_gives_start_state() {
    let t = scenario_transducer();
    assert_eq!(t.encrypt(&vec![]), vec![5]);
    assert_eq!(t.decrypt(&vec![5]), Ok(vec![]));
}

#[test]
fn empty_ciphertext_is_rejected() {
    let t = Transducer::spawn();
    assert_eq!(t.decrypt(&vec![]), Err(TransducerError::EmptyCiphertext));
}

#[test]
fn short_key_is_rejected() {
    assert!(matches!(Transducer::from_bytes(&vec![]), Err(TransducerError::MalformedKey)));
    let short = vec![0u8; KEY_LEN - 1];
    assert!(matches!(Transducer::from_bytes(&short), Err(TransducerError::MalformedKey)));
}

#[test]
fn exact_and_longer_keys_load() {
    let key = swapped_identity_key(7, (0, 0), (0, 0));
    assert!(Transducer::from_bytes(&key).is_ok());
    let mut longer = key.clone();
    longer.extend_from_slice(&[1, 2, 3]);
    let t = Transducer::from_bytes(&longer).unwrap();
    assert_eq!(t.to_bytes(), key);
}

#[test]
fn identity_key_encodes_through_states() {
    // With the identity table, reading byte b from any state moves to state s
    // and writes b unchanged, so the state stays the start state.
    let key = swapped_identity_key(3, (0, 0), (0, 0));
    let t = Transducer::from_bytes(&key).unwrap();
    assert_eq!(t.encrypt(&vec![1, 2, 250]), vec![1, 2, 250, 3]);
}

#[test]
fn serialized_key_has_fixed_layout() {
    let t = scenario_transducer();
    let bytes = t.to_bytes();
    assert_eq!(bytes.len(), 131073);
    assert_eq!(bytes[0], 5);
    let k = 5 * 256 + 65;
    assert_eq!((bytes[1 + 2 * k], bytes[2 + 2 * k]), (9, 200));
    assert_eq!((bytes[1], bytes[2]), (0, 0));
}

#[test]
fn random_transducer_round_trips() {
    let t = Transducer::spawn();
    let messages: Vec<Vec<u8>> = vec![
        vec![],
        vec![0],
        vec![255, 255, 255],
        b"the quick brown fox jumps over the lazy dog".to_vec(),
        (0..=255u8).collect(),
    ];
    for m in messages {
        let c = t.encrypt(&m);
        assert_eq!(c.len(), m.len() + 1);
        let d = t.decrypt(&c).unwrap();
        assert_eq!(d.len(), c.len() - 1);
        assert_eq!(d, m);
    }
}

#[test]
fn random_transducer_is_bijective() {
    let t = Transducer::spawn();
    let bytes = t.to_bytes();
    let mut seen = vec![false; 65536];
    for k in 0..65536 {
        let target = bytes[1 + 2 * k] as usize * 256 + bytes[2 + 2 * k] as usize;
        assert!(!seen[target]);
        seen[target] = true;
    }
    assert!(seen.iter().all(|&x| x));
}

#[test]
fn reloaded_key_behaves_alike() {
    let t = Transducer::spawn();
    let loaded = Transducer::from_bytes(&t.to_bytes()).unwrap();
    assert_eq!(loaded.to_bytes(), t.to_bytes());
    let m = b"attack at dawn".to_vec();
    let c = t.encrypt(&m);
    assert_eq!(loaded.encrypt(&m), c);
    assert_eq!(loaded.decrypt(&c), Ok(m));
}

#[test]
fn walk_continues_from_new_state() {
    let t = scenario_transducer();
    // 65 from state 5 becomes 200; the walk then sits in state 9.
    assert_eq!(t.encrypt(&vec![65, 0]), vec![200, 0, 9]);
    assert_eq!(t.decrypt(&vec![200, 0, 9]), Ok(vec![65, 0]));
}

#[test]
fn pairing_first_of_each_pool_gives_identity() {
    let picks = vec![(0usize, 0usize); 65536];
    let t = Transducer::pair_pools(7, &picks);
    assert_eq!(t.to_bytes(), swapped_identity_key(7, (0, 0), (0, 0)));
    assert_eq!(t.encrypt(&vec![4, 9]), vec![4, 9, 7]);
}

#[test]
fn pairing_last_domain_with_first_codomain_reverses() {
    // Step k takes the last remaining domain pair (65535 - k) and the first
    // remaining codomain pair (k), so forward[j] is the pair at 65535 - j.
    let picks: Vec<(usize, usize)> = (0..65536usize).map(|k| (65535 - k, 0)).collect();
    let t = Transducer::pair_pools(2, &picks);
    let bytes = t.to_bytes();
    assert_eq!(bytes[0], 2);
    for j in 0..65536usize {
        let r = 65535 - j;
        assert_eq!((bytes[1 + 2 * j], bytes[2 + 2 * j]), ((r / 256) as u8, (r % 256) as u8));
    }
    // From state 2, byte 3 is entry 515, which maps to pair 65020 = (253, 252).
    assert_eq!(t.encrypt(&vec![3]), vec![252, 253]);
    assert_eq!(t.decrypt(&vec![252, 253]), Ok(vec![3]));
}

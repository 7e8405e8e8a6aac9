use shamir::{generate_shares, rebuild_secret, ShamirError, ShamirShare};
use rand::seq::SliceRandom;

#[test]
fn test_split_data() {
    let secret: Vec<u8> = Vec::from("Hello World!");
    let result = generate_shares(&secret, 5, 3);
    let shares: Vec<ShamirShare>;
    match result {
        Ok(s) => shares = s,
        Err(err) => panic!("generate_shares returned error: {:?}", err),
    }
    assert_eq!(shares.len(), 5);
}

#[test]
fn test_rebuild_data_good() {
    let secret: Vec<u8> = Vec::from("Hello World!");
    let shares_result = generate_shares(&secret, 5, 3);
    let shares: Vec<ShamirShare>;
    match shares_result {
        Ok(s) => shares = s,
        Err(err) => panic!("generate_shares returned error: {:?}", err),
    }
    assert_eq!(shares.len(), 5);

    let rebuilt_secret: Vec<u8>;
    let rebuilt_secret_result = rebuild_secret(&shares[0..3]);
    match rebuilt_secret_result {
        Ok(s) => rebuilt_secret = s,
        Err(err) => panic!("rebuild_secret returned an error: {:?}", err),
    }
    assert_eq!(secret, rebuilt_secret);
}

#[test]
#[should_panic]
fn test_rebuild_data_bad() {
    let secret: Vec<u8> = Vec::from("Hello World!");
    let shares_result = generate_shares(&secret, 5, 3);
    let shares: Vec<ShamirShare>;
    match shares_result {
        Ok(s) => shares = s,
        Err(err) => panic!("generate_shares returned error: {:?}", err),
    }
    assert_eq!(shares.len(), 5);

    let rebuilt_secret: Vec<u8>;
    let rebuilt_secret_result = rebuild_secret(&shares[0..2]);
    match rebuilt_secret_result {
        Ok(s) => rebuilt_secret = s,
        Err(err) => panic!("rebuild_secret returned an error: {:?}", err),
    }
    assert_eq!(secret, rebuilt_secret);
}

#[test]
fn test_rebuild_data_non_contiguous() {
    let secret: Vec<u8> = Vec::from("Hello World!");
    let shares_result = generate_shares(&secret, 5, 3);
    let mut shares: Vec<ShamirShare>;
    match shares_result {
        Ok(s) => shares = s,
        Err(err) => panic!("generate_shares returned error: {:?}", err),
    }
    assert_eq!(shares.len(), 5);

    shares.remove(1);
    shares.remove(2);
    let rebuilt_secret: Vec<u8>;
    let rebuilt_secret_result = rebuild_secret(shares.as_slice());
    match rebuilt_secret_result {
        Ok(s) => rebuilt_secret = s,
        Err(err) => panic!("rebuild_secret returned an error: {:?}", err),
    }
    assert_eq!(secret, rebuilt_secret);
}

#[test]
fn test_rebuild_data_unsorted() {
    let secret: Vec<u8> = Vec::from("Hello World!");
    let shares_result = generate_shares(&secret, 5, 3);
    let mut shares: Vec<ShamirShare>;
    match shares_result {
        Ok(s) => shares = s,
        Err(err) => panic!("generate_shares returned error: {:?}", err),
    }
    assert_eq!(shares.len(), 5);

    shares.shuffle(&mut rand::thread_rng());
    let rebuilt_secret: Vec<u8>;
    let rebuilt_secret_result = rebuild_secret(shares.as_slice());
    match rebuilt_secret_result {
        Ok(s) => rebuilt_secret = s,
        Err(err) => panic!("rebuild_secret returned an error: {:?}", err),
    }
    assert_eq!(secret, rebuilt_secret);
}

#[test]
fn test_invalid_arguments() {
    let secret: Vec<u8> = Vec::from("Hello World!");
    let result = generate_shares(&secret, 3, 5);
    assert!(matches!(result, Err(ShamirError::InvalidArgument(_))));
    let result = generate_shares(&secret, 0, 0);
    assert!(matches!(result, Err(ShamirError::InvalidArgument(_))));
    let result = generate_shares(&secret, 4, 0);
    assert!(matches!(result, Err(ShamirError::InvalidArgument(_))));
}

#[test]
fn test_prime_mismatch() {
    let secret: Vec<u8> = Vec::from("Hello World!");
    let first = generate_shares(&secret, 5, 3).unwrap_or_else(|e| {
        panic!("generate_shares returned error: {:?}", e);
    });
    let second = generate_shares(&secret, 5, 3).unwrap_or_else(|e| {
        panic!("generate_shares returned error: {:?}", e);
    });
    assert_ne!(
        first[0].prime, second[0].prime,
        "two generation runs drew the same prime"
    );
    let mut mixed: Vec<ShamirShare> = Vec::new();
    for s in first {
        mixed.push(s);
    }
    for s in second {
        mixed.push(s);
        break;
    }
    let result = rebuild_secret(mixed.as_slice());
    assert!(matches!(result, Err(ShamirError::PrimeMismatch)));
}

#[test]
fn test_duplicate_input() {
    let secret: Vec<u8> = Vec::from("Hello World!");
    let shares = match generate_shares(&secret, 5, 3) {
        Ok(s) => s,
        Err(err) => panic!("generate_shares returned error: {:?}", err),
    };
    let doubled = vec![
        ShamirShare {
            data: shares[0].data.clone(),
            prime: shares[0].prime.clone(),
            input: shares[0].input,
        },
        ShamirShare {
            data: shares[1].data.clone(),
            prime: shares[1].prime.clone(),
            input: shares[0].input,
        },
        ShamirShare {
            data: shares[2].data.clone(),
            prime: shares[2].prime.clone(),
            input: shares[2].input,
        },
    ];
    let result = rebuild_secret(doubled.as_slice());
    assert!(matches!(result, Err(ShamirError::DuplicateInput)));
}

#[test]
fn test_subset_independence() {
    let secret: Vec<u8> = Vec::from("Hello World!");
    let shares = match generate_shares(&secret, 5, 3) {
        Ok(s) => s,
        Err(err) => panic!("generate_shares returned error: {:?}", err),
    };
    let pick = |idx: &[usize]| -> Vec<ShamirShare> {
        idx.iter()
            .map(|&i| ShamirShare {
                data: shares[i].data.clone(),
                prime: shares[i].prime.clone(),
                input: shares[i].input,
            })
            .collect()
    };
    let a = rebuild_secret(pick(&[0, 2, 4]).as_slice()).unwrap_or_else(|e| {
        panic!("rebuild_secret returned an error: {:?}", e);
    });
    let b = rebuild_secret(pick(&[1, 2, 3]).as_slice()).unwrap_or_else(|e| {
        panic!("rebuild_secret returned an error: {:?}", e);
    });
    assert_eq!(a, b);
    assert_eq!(a, secret);
}

#[test]
fn test_round_trip_single_byte() {
    let secret: Vec<u8> = vec![42];
    let shares = match generate_shares(&secret, 3, 1) {
        Ok(s) => s,
        Err(err) => panic!("generate_shares returned error: {:?}", err),
    };
    for s in shares {
        let one = vec![s];
        let rebuilt = rebuild_secret(one.as_slice()).unwrap_or_else(|e| {
            panic!("rebuild_secret returned an error: {:?}", e);
        });
        assert_eq!(rebuilt, secret);
    }
}

#[test]
fn test_round_trip_large_secret() {
    let mut secret: Vec<u8> = Vec::new();
    for i in 0..512usize {
        secret.push((i % 251 + 1) as u8);
    }
    let shares = match generate_shares(&secret, 6, 4) {
        Ok(s) => s,
        Err(err) => panic!("generate_shares returned error: {:?}", err),
    };
    let rebuilt = rebuild_secret(&shares[1..5]).unwrap_or_else(|e| {
        panic!("rebuild_secret returned an error: {:?}", e);
    });
    assert_eq!(rebuilt, secret);
    let all = rebuild_secret(shares.as_slice()).unwrap_or_else(|e| {
        panic!("rebuild_secret returned an error: {:?}", e);
    });
    assert_eq!(all, secret);
}

#[test]
fn test_round_trip_even_share_count() {
    let secret: Vec<u8> = Vec::from("even share counts must work too");
    let shares = match generate_shares(&secret, 4, 2) {
        Ok(s) => s,
        Err(err) => panic!("generate_shares returned error: {:?}", err),
    };
    let rebuilt = rebuild_secret(&shares[0..2]).unwrap_or_else(|e| {
        panic!("rebuild_secret returned an error: {:?}", e);
    });
    assert_eq!(rebuilt, secret);
    let rebuilt = rebuild_secret(&shares[2..4]).unwrap_or_else(|e| {
        panic!("rebuild_secret returned an error: {:?}", e);
    });
    assert_eq!(rebuilt, secret);
}

#[test]
fn test_threshold_all_pieces() {
    let secret: Vec<u8> = Vec::from("Hello World!");
    let shares = match generate_shares(&secret, 3, 3) {
        Ok(s) => s,
        Err(err) => panic!("generate_shares returned error: {:?}", err),
    };
    let rebuilt = rebuild_secret(shares.as_slice()).unwrap_or_else(|e| {
        panic!("rebuild_secret returned an error: {:?}", e);
    });
    assert_eq!(rebuilt, secret);
}

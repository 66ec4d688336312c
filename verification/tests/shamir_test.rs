use shamir_share::payload::HASH_SIZE;
use shamir_share::{Config, ShamirError, ShamirShare, Share, SplitMode};

#[test]
fn test_split_and_reconstruct() {
    let secret = b"Hello, World!";
    let mut shamir = ShamirShare::builder(5, 3).build().unwrap();

    // Split the secret
    let shares = shamir.split(secret).unwrap();
    assert_eq!(shares.len(), 5);

    // Reconstruct with exactly threshold shares
    let reconstructed = ShamirShare::reconstruct(&shares[0..3]).unwrap();
    assert_eq!(&reconstructed, secret);

    // Reconstruct with more than threshold shares
    let reconstructed = ShamirShare::reconstruct(&shares[1..5]).unwrap();
    assert_eq!(&reconstructed, secret);
}

#[test]
fn test_invalid_parameters() {
    assert!(ShamirShare::builder(0, 1).build().is_err());
    assert!(ShamirShare::builder(1, 0).build().is_err());
    assert!(ShamirShare::builder(3, 4).build().is_err());
}

#[test]
fn test_insufficient_shares() {
    let secret = b"Test";
    let mut shamir = ShamirShare::builder(5, 3).build().unwrap();
    let shares = shamir.split(secret).unwrap();

    assert!(ShamirShare::reconstruct(&shares[0..2]).is_err());
}

#[test]
fn test_different_share_combinations() {
    let secret = b"Different combinations test";
    let mut shamir = ShamirShare::builder(5, 3).build().unwrap();
    let shares = shamir.split(secret).unwrap();

    // Try different combinations of 3 shares
    let combinations = vec![vec![0, 1, 2], vec![1, 2, 3], vec![2, 3, 4], vec![0, 2, 4]];

    for combo in combinations {
        let selected_shares: Vec<Share> = combo.iter().map(|&i| shares[i].clone()).collect();

        let reconstructed = ShamirShare::reconstruct(&selected_shares).unwrap();
        assert_eq!(&reconstructed, secret);
    }
}

#[test]
fn test_empty_secret() {
    let secret = b"";
    let mut shamir = ShamirShare::builder(5, 3).build().unwrap();
    let shares = shamir.split(secret).unwrap();
    let reconstructed = ShamirShare::reconstruct(&shares[0..3]).unwrap();
    assert_eq!(reconstructed, secret);
}

#[test]
fn test_single_byte_secret() {
    let secret = b"x";
    let mut shamir = ShamirShare::builder(5, 3).build().unwrap();
    let shares = shamir.split(secret).unwrap();
    let reconstructed = ShamirShare::reconstruct(&shares[0..3]).unwrap();
    assert_eq!(reconstructed, secret);
}

#[test]
fn test_max_shares() {
    let secret = b"Maximum shares test";
    let mut shamir = ShamirShare::builder(255, 128).build().unwrap();
    let shares = shamir.split(secret).unwrap();
    assert_eq!(shares.len(), 255);

    let reconstructed = ShamirShare::reconstruct(&shares[0..128]).unwrap();
    assert_eq!(reconstructed, secret);
}

#[test]
fn test_duplicate_share_indices() {
    let mut shamir = ShamirShare::builder(5, 3).build().unwrap();
    let shares = shamir.split(b"test").unwrap();

    let mut corrupted_shares = shares[0..3].to_vec();
    corrupted_shares[1].index = corrupted_shares[0].index; // Duplicate index

    assert!(matches!(
        ShamirShare::reconstruct(&corrupted_shares),
        Err(ShamirError::InvalidShareFormat)
    ));
}

#[test]
fn test_corrupted_share_data() {
    let mut shamir = ShamirShare::builder(5, 3).build().unwrap();
    let mut shares = shamir.split(b"test").unwrap();

    // Corrupt one byte in a share
    if shares[0].data[0] == 0 {
        shares[0].data[0] = 1;
    } else {
        shares[0].data[0] = 0;
    }

    assert!(matches!(
        ShamirShare::reconstruct(&shares[0..3]),
        Err(ShamirError::IntegrityCheckFailed)
    ));
}

#[test]
fn test_builder_pattern() {
    // Test basic builder usage
    let shamir = ShamirShare::builder(5, 3).build().unwrap();
    assert_eq!(shamir.total_shares(), 5);
    assert_eq!(shamir.threshold(), 3);
    assert!(shamir.config().integrity_check); // Default should be true

    // Test builder with custom config
    let config = Config::new().with_integrity_check(false);
    let shamir = ShamirShare::builder(7, 4)
        .with_config(config)
        .build()
        .unwrap();
    assert_eq!(shamir.total_shares(), 7);
    assert_eq!(shamir.threshold(), 4);
    assert!(!shamir.config().integrity_check);
}

#[test]
fn test_builder_validation() {
    // Test invalid parameters through builder
    assert!(ShamirShare::builder(0, 1).build().is_err());
    assert!(ShamirShare::builder(1, 0).build().is_err());
    assert!(ShamirShare::builder(3, 5).build().is_err());

    // Test invalid config
    let invalid_config = Config::new().with_chunk_size(0).unwrap_err();
    assert!(matches!(invalid_config, ShamirError::InvalidConfig(_)));
}

#[test]
fn test_integrity_check_disabled() {
    let config = Config::new().with_integrity_check(false);
    let mut shamir = ShamirShare::builder(5, 3)
        .with_config(config)
        .build()
        .unwrap();

    let secret = b"test secret without integrity check";
    let shares = shamir.split(secret).unwrap();

    // Verify shares have integrity_check = false
    assert!(!shares[0].integrity_check);

    // Reconstruct should work
    let reconstructed = ShamirShare::reconstruct(&shares[0..3]).unwrap();
    assert_eq!(&reconstructed, secret);

    // Data should be smaller since no hash is prepended
    let mut shamir_with_integrity = ShamirShare::builder(5, 3).build().unwrap();
    let shares_with_integrity = shamir_with_integrity.split(secret).unwrap();

    // Shares without integrity check should be smaller
    assert!(shares[0].data.len() < shares_with_integrity[0].data.len());
    assert_eq!(
        shares_with_integrity[0].data.len() - shares[0].data.len(),
        HASH_SIZE
    );
}

#[test]
fn test_integrity_check_enabled() {
    let config = Config::new().with_integrity_check(true);
    let mut shamir = ShamirShare::builder(5, 3)
        .with_config(config)
        .build()
        .unwrap();

    let secret = b"test secret with integrity check";
    let shares = shamir.split(secret).unwrap();

    // Verify shares have integrity_check = true
    assert!(shares[0].integrity_check);

    // Reconstruct should work
    let reconstructed = ShamirShare::reconstruct(&shares[0..3]).unwrap();
    assert_eq!(&reconstructed, secret);

    // Corruption should be detected
    let mut corrupted_shares = shares[0..3].to_vec();
    if corrupted_shares[0].data[0] == 0 {
        corrupted_shares[0].data[0] = 1;
    } else {
        corrupted_shares[0].data[0] = 0;
    }

    assert!(matches!(
        ShamirShare::reconstruct(&corrupted_shares),
        Err(ShamirError::IntegrityCheckFailed)
    ));
}

#[test]
fn test_mixed_integrity_check_shares() {
    // Create shares with integrity check enabled
    let config_with_integrity = Config::new().with_integrity_check(true);
    let mut shamir_with_integrity = ShamirShare::builder(5, 3)
        .with_config(config_with_integrity)
        .build()
        .unwrap();

    // Create shares with integrity check disabled
    let config_without_integrity = Config::new().with_integrity_check(false);
    let mut shamir_without_integrity = ShamirShare::builder(5, 3)
        .with_config(config_without_integrity)
        .build()
        .unwrap();

    let secret = b"test secret";
    let shares_with_integrity = shamir_with_integrity.split(secret).unwrap();
    let shares_without_integrity = shamir_without_integrity.split(secret).unwrap();

    // Mixing shares with different integrity check settings should fail
    let mixed_shares = vec![
        shares_with_integrity[0].clone(),
        shares_without_integrity[1].clone(),
        shares_with_integrity[2].clone(),
    ];

    assert!(matches!(
        ShamirShare::reconstruct(&mixed_shares),
        Err(ShamirError::InconsistentShareLength)
    ));
}

#[test]
fn test_config_builder_methods() {
    let config = Config::new()
        .with_chunk_size(2048)
        .unwrap()
        .with_mode(SplitMode::Parallel)
        .with_compression(true)
        .with_integrity_check(false);

    let shamir = ShamirShare::builder(5, 3)
        .with_config(config.clone())
        .build()
        .unwrap();

    assert_eq!(shamir.config().chunk_size, 2048);
    assert_eq!(shamir.config().mode, SplitMode::Parallel);
    assert!(shamir.config().compression);
    assert!(!shamir.config().integrity_check);
}

#[test]
fn test_error_handling() {
    // Test invalid parameters
    assert!(matches!(
        ShamirShare::builder(2, 3).build(),
        Err(ShamirError::ThresholdTooLarge { .. })
    ));

    // Test invalid share reconstruction
    let mut shamir = ShamirShare::builder(5, 3).build().unwrap();
    let shares = shamir.split(b"test").unwrap();

    // Try to reconstruct with insufficient shares
    assert!(matches!(
        ShamirShare::reconstruct(&shares[0..2]),
        Err(ShamirError::InsufficientShares { .. })
    ));
}

#[test]
fn test_builder_defaults() {
    let shamir = ShamirShare::builder(5, 3).build().unwrap();
    let secret = b"test secret";
    let mut shamir_mut = shamir;
    let shares = shamir_mut.split(secret).unwrap();

    // Default configuration should have integrity_check = true
    assert!(shares[0].integrity_check);
}

#[test]
fn test_builder_with_custom_config() {
    let config = Config::new().with_integrity_check(false);
    let shamir = ShamirShare::builder(5, 3)
        .with_config(config)
        .build()
        .unwrap();

    let secret = b"test secret";
    let mut shamir_mut = shamir;
    let shares = shamir_mut.split(secret).unwrap();

    // Custom configuration should have integrity_check = false
    assert!(!shares[0].integrity_check);
}

#[test]
fn test_split_with_integrity_check_disabled() {
    let config = Config::new().with_integrity_check(false);
    let mut shamir = ShamirShare::builder(5, 3)
        .with_config(config)
        .build()
        .unwrap();

    let secret = b"no hash please";
    let shares = shamir.split(secret).unwrap();

    for share in &shares {
        assert_eq!(share.data.len(), secret.len());
    }

    let reconstructed = ShamirShare::reconstruct(&shares[0..3]).unwrap();
    assert_eq!(&reconstructed, secret);
}

#[test]
fn test_split_with_integrity_check_enabled() {
    let mut shamir = ShamirShare::builder(5, 3).build().unwrap();

    let secret = b"hash me please";
    let shares = shamir.split(secret).unwrap();

    for share in &shares {
        assert!(share.data.len() > secret.len());
        assert_eq!(share.data.len(), secret.len() + 32);
    }

    let reconstructed = ShamirShare::reconstruct(&shares[0..3]).unwrap();
    assert_eq!(&reconstructed, secret);
}

#[test]
fn test_compression_e2e() {
    let config = Config::new().with_compression(true);
    let mut shamir = ShamirShare::builder(5, 3)
        .with_config(config)
        .build()
        .unwrap();

    let secret = b"this is a test secret that should be compressed";
    let shares = shamir.split(secret).unwrap();

    let reconstructed = ShamirShare::reconstruct(&shares[0..3]).unwrap();
    assert_eq!(reconstructed, secret);
}

#[test]
fn test_highly_compressible_data() {
    let config = Config::new().with_compression(true);
    let mut shamir_compressed = ShamirShare::builder(5, 3)
        .with_config(config)
        .build()
        .unwrap();

    let mut shamir_uncompressed = ShamirShare::builder(5, 3).build().unwrap();

    let secret = vec![0; 1024];
    let compressed_shares = shamir_compressed.split(&secret).unwrap();
    let uncompressed_shares = shamir_uncompressed.split(&secret).unwrap();

    assert!(
        compressed_shares[0].data.len() < uncompressed_shares[0].data.len(),
        "Compressed share should be smaller"
    );

    let reconstructed = ShamirShare::reconstruct(&compressed_shares[0..3]).unwrap();
    assert_eq!(reconstructed, secret);
}

#[test]
fn test_incompressible_data() {
    let config = Config::new().with_compression(true);
    let mut shamir = ShamirShare::builder(5, 3)
        .with_config(config)
        .build()
        .unwrap();

    let secret: Vec<u8> = (0..1024).map(|_| rand::random::<u8>()).collect();
    let shares = shamir.split(&secret).unwrap();

    let reconstructed = ShamirShare::reconstruct(&shares[0..3]).unwrap();
    assert_eq!(reconstructed, secret);
}

#[test]
fn test_reconstruct_no_shares() {
    assert!(matches!(
        ShamirShare::reconstruct(&[]),
        Err(ShamirError::InsufficientShares { needed: 1, got: 0 })
    ));
}

#[test]
fn test_reconstruct_reports_threshold_and_count() {
    let mut shamir = ShamirShare::builder(5, 3).build().unwrap();
    let shares = shamir.split(b"count").unwrap();
    assert!(matches!(
        ShamirShare::reconstruct(&shares[0..2]),
        Err(ShamirError::InsufficientShares { needed: 3, got: 2 })
    ));
    assert!(matches!(
        ShamirShare::reconstruct(&shares[4..5]),
        Err(ShamirError::InsufficientShares { needed: 3, got: 1 })
    ));
}

#[test]
fn test_reconstruct_rejects_zero_index() {
    let config = Config::new().with_integrity_check(false);
    let mut shamir = ShamirShare::builder(5, 3)
        .with_config(config)
        .build()
        .unwrap();
    let mut shares = shamir.split(b"zero").unwrap();
    shares[1].index = 0;
    assert!(matches!(
        ShamirShare::reconstruct(&shares[0..3]),
        Err(ShamirError::InvalidShareFormat)
    ));
}

#[test]
fn test_reconstruct_rejects_mixed_lengths_and_compression() {
    let config = Config::new().with_integrity_check(false);
    let mut shamir = ShamirShare::builder(5, 3)
        .with_config(config)
        .build()
        .unwrap();
    let shares = shamir.split(b"lengths").unwrap();

    let mut shorter = shares[0..3].to_vec();
    shorter[2].data.pop();
    assert!(matches!(
        ShamirShare::reconstruct(&shorter),
        Err(ShamirError::InconsistentShareLength)
    ));

    let mut flagged = shares[0..3].to_vec();
    flagged[1].compression = true;
    assert!(matches!(
        ShamirShare::reconstruct(&flagged),
        Err(ShamirError::InconsistentShareLength)
    ));
}

#[test]
fn test_short_payload_fails_integrity_check() {
    let shares: Vec<Share> = (1..=2u8)
        .map(|index| Share {
            index,
            data: vec![index; 5],
            threshold: 2,
            total_shares: 2,
            integrity_check: true,
            compression: false,
        })
        .collect();
    assert!(matches!(
        ShamirShare::reconstruct(&shares),
        Err(ShamirError::IntegrityCheckFailed)
    ));
}

#[test]
fn test_garbage_does_not_decompress() {
    let shares: Vec<Share> = (1..=2u8)
        .map(|index| Share {
            index,
            data: vec![0xAB; 16],
            threshold: 2,
            total_shares: 2,
            integrity_check: false,
            compression: true,
        })
        .collect();
    assert!(matches!(
        ShamirShare::reconstruct(&shares),
        Err(ShamirError::DecompressionError(_))
    ));
}

#[test]
fn test_known_interpolation() {
    // The line through (1, 5) and (2, 6) in GF(256) has the constant term
    // (2 * 5 + 1 * 6) / (1 + 2) = (10 ^ 6) / 3 = 12 / 3 = 4.
    let shares: Vec<Share> = vec![(1u8, 5u8), (2, 6)]
        .into_iter()
        .map(|(index, y)| Share {
            index,
            data: vec![y],
            threshold: 2,
            total_shares: 2,
            integrity_check: false,
            compression: false,
        })
        .collect();
    assert_eq!(ShamirShare::reconstruct(&shares).unwrap(), vec![4]);
    assert_eq!(ShamirShare::reconstruct_chunk(&shares).unwrap(), vec![4]);
    let coefficients = ShamirShare::compute_lagrange_coefficients(&shares).unwrap();
    assert_eq!(coefficients.len(), 2);
    // L_1 = 2 / (1 + 2) and L_2 = 1 / (1 + 2); 1 / 3 is 0xF6.
    assert_eq!(coefficients[1].0, 0xF6);
    assert_eq!(coefficients[0].0, 0xF7);
}

#[test]
fn test_threshold_one_shares_are_the_secret() {
    let config = Config::new().with_integrity_check(false);
    let mut shamir = ShamirShare::builder(3, 1)
        .with_config(config)
        .build()
        .unwrap();
    let shares = shamir.split(b"plain").unwrap();
    for share in &shares {
        assert_eq!(share.data, b"plain");
    }
    assert_eq!(ShamirShare::reconstruct(&shares[2..3]).unwrap(), b"plain");
}

#[test]
fn test_share_data_is_hash_then_secret_at_threshold_one() {
    let mut shamir = ShamirShare::builder(2, 1).build().unwrap();
    let shares = shamir.split(b"abc").unwrap();
    // SHA-256 of "abc".
    let expected: [u8; 32] = [
        0xba, 0x78, 0x16, 0xbf, 0x8f, 0x01, 0xcf, 0xea, 0x41, 0x41, 0x40, 0xde, 0x5d, 0xae, 0x22,
        0x23, 0xb0, 0x03, 0x61, 0xa3, 0x96, 0x17, 0x7a, 0x9c, 0xb4, 0x10, 0xff, 0x61, 0xf2, 0x00,
        0x15, 0xad,
    ];
    assert_eq!(&shares[0].data[..32], &expected);
    assert_eq!(&shares[0].data[32..], b"abc");
}

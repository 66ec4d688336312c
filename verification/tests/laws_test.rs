use shamir_share::payload::{frame_payload, hashes_equal, prepare, unpack, verify_secret};
use shamir_share::shamir::{interpolate_byte, lagrange_at_zero};
use shamir_share::sharing::{evaluate_byte, evaluate_share, evaluate_zero_byte, evaluate_zero_share};
use shamir_share::{
    Config, FiniteField, Hsss, ShamirError, ShamirShare, Share, ShareView,
};

fn plain_scheme(total_shares: u8, threshold: u8) -> ShamirShare {
    ShamirShare::builder(total_shares, threshold)
        .with_config(Config::new().with_integrity_check(false))
        .build()
        .unwrap()
}

#[test]
fn test_hello_world_three_of_five() {
    let secret = b"Hello, World!";
    let mut shamir = ShamirShare::builder(5, 3).build().unwrap();
    let shares = shamir.split(secret).unwrap();
    assert_eq!(ShamirShare::reconstruct(&shares[0..3]).unwrap(), secret);
    assert_eq!(ShamirShare::reconstruct(&shares[1..5]).unwrap(), secret);
    assert!(ShamirShare::reconstruct(&shares[0..2]).is_err());
}

#[test]
fn test_president_vp_executive() {
    let mut hsss = Hsss::builder(5)
        .add_level("President", 5)
        .add_level("VP", 3)
        .add_level("Executive", 2)
        .build()
        .unwrap();
    let secret = b"the board's secret";
    let levels = hsss.split_secret(secret).unwrap();

    // President's five shares alone.
    assert_eq!(hsss.reconstruct(&levels[0..1]).unwrap(), secret);
    // VP's three shares alone.
    assert!(matches!(
        hsss.reconstruct(&levels[1..2]),
        Err(ShamirError::InsufficientShares { needed: 5, got: 3 })
    ));
    // VP's three and Executive's two together.
    assert_eq!(hsss.reconstruct(&levels[1..3]).unwrap(), secret);
}

#[test]
fn test_levels_receive_consecutive_indices_in_declaration_order() {
    let mut hsss = Hsss::builder(5)
        .add_level("President", 5)
        .add_level("VP", 3)
        .add_level("Executive", 2)
        .build()
        .unwrap();
    let levels = hsss.split_secret(b"order").unwrap();
    let names: Vec<&str> = levels.iter().map(|l| l.level_name.as_str()).collect();
    assert_eq!(names, vec!["President", "VP", "Executive"]);
    let indices: Vec<Vec<u8>> = levels
        .iter()
        .map(|l| l.shares.iter().map(|s| s.index).collect())
        .collect();
    assert_eq!(
        indices,
        vec![vec![1, 2, 3, 4, 5], vec![6, 7, 8], vec![9, 10]]
    );
    for level in &levels {
        for share in &level.shares {
            assert_eq!(share.threshold, 5);
            assert_eq!(share.total_shares, 10);
        }
    }
}

#[test]
fn test_hierarchy_empty_combination() {
    let hsss = Hsss::builder(2).add_level("Only", 3).build().unwrap();
    assert!(matches!(
        hsss.reconstruct(&[]),
        Err(ShamirError::InsufficientShares { needed: 1, got: 0 })
    ));
}

#[test]
fn test_hierarchy_with_master_scheme_checks_the_levels() {
    let level = |name: &str, shares_count: u8| shamir_share::AccessLevel {
        name: name.to_string(),
        shares_count,
    };
    let scheme = || ShamirShare::builder(5, 3).build().unwrap();
    assert!(matches!(
        Hsss::with_master_scheme(scheme(), vec![]),
        Err(ShamirError::InvalidConfig(_))
    ));
    assert!(matches!(
        Hsss::with_master_scheme(scheme(), vec![level("a", 5), level("b", 0)]),
        Err(ShamirError::InvalidShareCount(0))
    ));
    assert!(matches!(
        Hsss::with_master_scheme(scheme(), vec![level("a", 2), level("b", 2)]),
        Err(ShamirError::InvalidConfig(_))
    ));
    let hsss = Hsss::with_master_scheme(scheme(), vec![level("a", 2), level("b", 3)]).unwrap();
    assert_eq!(hsss.total_shares(), 5);
    assert_eq!(hsss.master_threshold(), 3);
}

#[test]
fn test_hierarchy_too_many_shares_message() {
    match Hsss::builder(5)
        .add_level("Level1", 200)
        .add_level("Level2", 100)
        .build()
    {
        Err(ShamirError::InvalidConfig(message)) => {
            assert_eq!(message, "Total shares count 300 exceeds maximum of 255")
        }
        other => panic!("unexpected result: {:?}", other.map(|_| ())),
    }
    match Hsss::builder(5).build() {
        Err(ShamirError::InvalidConfig(message)) => {
            assert_eq!(message, "At least one access level must be defined")
        }
        other => panic!("unexpected result: {:?}", other.map(|_| ())),
    }
}

#[test]
fn test_round_trip_for_small_parameters() {
    for total_shares in 1..=6u8 {
        for threshold in 1..=total_shares {
            for integrity in [false, true] {
                let config = Config::new().with_integrity_check(integrity);
                let mut shamir = ShamirShare::builder(total_shares, threshold)
                    .with_config(config)
                    .build()
                    .unwrap();
                for secret in [&b""[..], &b"x"[..], &b"seventeen bytes!!"[..]] {
                    let shares = shamir.split(secret).unwrap();
                    assert_eq!(shares.len(), total_shares as usize);
                    let k = threshold as usize;
                    let n = total_shares as usize;
                    assert_eq!(ShamirShare::reconstruct(&shares[..k]).unwrap(), secret);
                    assert_eq!(ShamirShare::reconstruct(&shares[n - k..]).unwrap(), secret);
                    assert_eq!(ShamirShare::reconstruct(&shares).unwrap(), secret);
                }
            }
        }
    }
}

#[test]
fn test_every_subset_of_threshold_size_reconstructs() {
    let secret = b"all the subsets";
    let mut shamir = ShamirShare::builder(5, 3).build().unwrap();
    let shares = shamir.split(secret).unwrap();
    let mut subsets = 0;
    for a in 0..5 {
        for b in a + 1..5 {
            for c in b + 1..5 {
                // In any order.
                let picked = vec![shares[c].clone(), shares[a].clone(), shares[b].clone()];
                assert_eq!(ShamirShare::reconstruct(&picked).unwrap(), secret);
                subsets += 1;
            }
        }
    }
    assert_eq!(subsets, 10);
}

#[test]
fn test_any_flipped_bit_is_detected() {
    let secret = b"tamper-evident";
    let mut shamir = ShamirShare::builder(4, 2).build().unwrap();
    let shares = shamir.split(secret).unwrap();
    let length = shares[0].data.len();
    for share in 0..2 {
        for position in [0, 1, 31, 32, length - 1] {
            for bit in [0, 3, 7] {
                let mut tampered = shares[0..2].to_vec();
                tampered[share].data[position] ^= 1 << bit;
                assert!(matches!(
                    ShamirShare::reconstruct(&tampered),
                    Err(ShamirError::IntegrityCheckFailed)
                ));
            }
        }
    }
}

#[test]
fn test_a_changed_byte_changes_the_same_recovered_byte_and_no_other() {
    let secret = b"no integrity net";
    let mut shamir = plain_scheme(4, 3);
    let shares = shamir.split(secret).unwrap();
    for position in 0..secret.len() {
        let mut tampered = shares[1..4].to_vec();
        tampered[2].data[position] ^= 0x10;
        let recovered = ShamirShare::reconstruct(&tampered).unwrap();
        for (j, (&got, &want)) in recovered.iter().zip(secret.iter()).enumerate() {
            assert_eq!(got == want, j != position);
        }
    }
}

#[test]
fn test_horner_known_values() {
    // P(x) = 5 + x, so P(1) = 4 and P(2) = 7.
    assert_eq!(evaluate_share(&[5], &[1], 2, 1), vec![4]);
    assert_eq!(evaluate_share(&[5], &[1], 2, 2), vec![7]);
    assert_eq!(evaluate_byte(&[5], &[1], 2, 0, 2), 7);
    // P(x) = 5 + x + 2 x^2 at x = 3: 3 * 3 = 5, 2 * 5 = 10, so 5 ^ 3 ^ 10 = 12.
    assert_eq!(evaluate_share(&[5], &[1, 2], 3, 3), vec![12]);
    // Two bytes, each with its own coefficients.
    assert_eq!(evaluate_share(&[5, 9], &[1, 2, 0, 1], 3, 3), vec![12, 9 ^ 5]);
    // With a threshold of one the shares are the data.
    assert_eq!(evaluate_share(&[1, 2, 3], &[], 1, 200), vec![1, 2, 3]);
    // The constant term is zero in a refresh: P(x) = 3 x at x = 2 is 6.
    assert_eq!(evaluate_zero_share(&[3], 1, 2, 2), vec![6]);
    assert_eq!(evaluate_zero_byte(&[3], 1, 2, 0, 2), 6);
    // P(x) = x + 2 x^2 at x = 3: 3 ^ 10 = 9.
    assert_eq!(evaluate_zero_share(&[1, 2], 1, 3, 3), vec![9]);
    assert_eq!(evaluate_zero_share(&[], 4, 1, 77), vec![0, 0, 0, 0]);
}

#[test]
fn test_lagrange_at_zero() {
    assert!(matches!(
        lagrange_at_zero(&vec![1, 2, 1]),
        Err(ShamirError::InvalidShareFormat)
    ));
    assert!(matches!(
        lagrange_at_zero(&vec![1, 0, 2]),
        Err(ShamirError::InvalidShareFormat)
    ));
    assert_eq!(lagrange_at_zero(&vec![]).unwrap(), vec![]);
    // One point: the coefficient is one.
    assert_eq!(lagrange_at_zero(&vec![77]).unwrap(), vec![FiniteField::new(1)]);
    // The coefficients sum to one.
    let coefficients = lagrange_at_zero(&vec![3, 9, 200, 17]).unwrap();
    let sum = coefficients
        .iter()
        .fold(FiniteField::new(0), |acc, &c| acc + c);
    assert_eq!(sum, FiniteField::new(1));
}

#[test]
fn test_interpolate_byte() {
    let first = [5u8, 1];
    let second = [6u8, 1];
    let views = vec![
        ShareView { index: 1, data: &first },
        ShareView { index: 2, data: &second },
    ];
    let coefficients = ShamirShare::compute_lagrange_coefficients_from_views(&views).unwrap();
    assert_eq!(interpolate_byte(&views, &coefficients, 0), 4);
    // A constant polynomial.
    assert_eq!(interpolate_byte(&views, &coefficients, 1), 1);
    let mut output = vec![9, 9, 9];
    ShamirShare::reconstruct_chunk_from_views(&views, &mut output).unwrap();
    assert_eq!(output, vec![4, 1]);
}

#[test]
fn test_reconstruct_chunk_refusals() {
    let mut output = vec![1];
    assert!(matches!(
        ShamirShare::reconstruct_chunk_from_views(&[], &mut output),
        Err(ShamirError::InsufficientShares { needed: 1, got: 0 })
    ));
    let long = [1u8, 2];
    let short = [1u8];
    let views = vec![
        ShareView { index: 1, data: &long },
        ShareView { index: 2, data: &short },
    ];
    assert!(matches!(
        ShamirShare::reconstruct_chunk_from_views(&views, &mut output),
        Err(ShamirError::InconsistentShareLength)
    ));
    let views = vec![
        ShareView { index: 2, data: &long },
        ShareView { index: 2, data: &long },
    ];
    assert!(matches!(
        ShamirShare::reconstruct_chunk_from_views(&views, &mut output),
        Err(ShamirError::InvalidShareFormat)
    ));
    assert_eq!(output, vec![1]);
    assert!(matches!(
        ShamirShare::reconstruct_chunk(&[]),
        Err(ShamirError::InsufficientShares { needed: 1, got: 0 })
    ));
}

#[test]
fn test_payload_with_hash() {
    // SHA-256 of the empty string.
    let empty_hash: [u8; 32] = [
        0xe3, 0xb0, 0xc4, 0x42, 0x98, 0xfc, 0x1c, 0x14, 0x9a, 0xfb, 0xf4, 0xc8, 0x99, 0x6f, 0xb9,
        0x24, 0x27, 0xae, 0x41, 0xe4, 0x64, 0x9b, 0x93, 0x4c, 0xa4, 0x95, 0x99, 0x1b, 0x78, 0x52,
        0xb8, 0x55,
    ];
    assert_eq!(prepare(b"", true, false).unwrap(), empty_hash);
    assert_eq!(prepare(b"", false, false).unwrap(), b"");
    assert_eq!(prepare(b"abc", false, false).unwrap(), b"abc");
    assert_eq!(unpack(&empty_hash, true, false).unwrap(), b"");
    assert_eq!(unpack(b"abc", false, false).unwrap(), b"abc");

    // With compression the hash is that of the secret, not of the body.
    let framed = frame_payload(b"", true, vec![1, 2, 3]);
    assert_eq!(&framed[..32], &empty_hash);
    assert_eq!(&framed[32..], &[1, 2, 3]);
    assert_eq!(frame_payload(b"ignored", false, vec![1, 2, 3]), vec![1, 2, 3]);

    let payload = prepare(b"round", true, false).unwrap();
    assert_eq!(payload.len(), 32 + 5);
    assert_eq!(unpack(&payload, true, false).unwrap(), b"round");
    let mut wrong = payload.clone();
    wrong[36] ^= 1;
    assert!(matches!(
        unpack(&wrong, true, false),
        Err(ShamirError::IntegrityCheckFailed)
    ));
    assert!(matches!(
        unpack(&payload[..31], true, false),
        Err(ShamirError::IntegrityCheckFailed)
    ));
    assert!(matches!(
        verify_secret(&empty_hash, b"not empty".to_vec()),
        Err(ShamirError::IntegrityCheckFailed)
    ));
    assert_eq!(verify_secret(&empty_hash, vec![]).unwrap(), b"");
}

#[test]
fn test_hashes_equal() {
    assert!(hashes_equal(&[1, 2, 3], &[1, 2, 3]));
    assert!(!hashes_equal(&[1, 2, 3], &[1, 2, 4]));
    assert!(!hashes_equal(&[0, 2, 3], &[1, 2, 3]));
    assert!(hashes_equal(&[], &[]));
}

#[test]
fn test_compressed_payload_is_a_zstd_frame() {
    let secret = vec![7u8; 500];
    let payload = prepare(&secret, false, true).unwrap();
    assert_eq!(&payload[..4], &[0x28, 0xB5, 0x2F, 0xFD]);
    assert!(payload.len() < secret.len());
    assert_eq!(unpack(&payload, false, true).unwrap(), secret);

    let with_hash = prepare(&secret, true, true).unwrap();
    assert_eq!(&with_hash[32..], &payload[..]);
    assert_eq!(unpack(&with_hash, true, true).unwrap(), secret);
    assert!(matches!(
        unpack(b"not a frame", false, true),
        Err(ShamirError::DecompressionError(_))
    ));
}

#[test]
fn test_two_splits_draw_different_coefficients() {
    let secret = vec![0u8; 64];
    let mut first = plain_scheme(3, 2);
    let mut second = plain_scheme(3, 2);
    let a = first.split(&secret).unwrap();
    let b = first.split(&secret).unwrap();
    let c = second.split(&secret).unwrap();
    assert_ne!(a[0].data, b[0].data);
    assert_ne!(a[0].data, c[0].data);
    assert_ne!(a[0].data, secret);
}

#[test]
fn test_split_chunk() {
    let mut shamir = plain_scheme(4, 2);
    let chunk = b"one chunk";
    let rows = shamir.split_chunk(chunk).unwrap();
    assert_eq!(rows.len(), 4);
    let shares: Vec<Share> = rows
        .into_iter()
        .enumerate()
        .map(|(i, data)| Share {
            index: (i + 1) as u8,
            data,
            threshold: 2,
            total_shares: 4,
            integrity_check: false,
            compression: false,
        })
        .collect();
    assert_eq!(ShamirShare::reconstruct(&shares[1..3]).unwrap(), chunk);
    assert_eq!(ShamirShare::reconstruct_chunk(&shares[2..4]).unwrap(), chunk);
}

#[test]
fn test_stream_chunk_functions() {
    let mut shamir = ShamirShare::builder(3, 2).build().unwrap();
    let rows = shamir.split_stream_chunk(b"chunk").unwrap();
    assert_eq!(rows.len(), 3);
    assert!(rows.iter().all(|row| row.len() == 32 + 5));
    let views = vec![
        ShareView { index: 3, data: &rows[2] },
        ShareView { index: 1, data: &rows[0] },
    ];
    let mut buffer = Vec::new();
    assert_eq!(
        ShamirShare::reconstruct_stream_chunk(&views, true, false, &mut buffer).unwrap(),
        b"chunk"
    );
    assert!(matches!(
        ShamirShare::reconstruct_stream_chunk(&views[..0], true, false, &mut buffer),
        Err(ShamirError::InsufficientShares { needed: 1, got: 0 })
    ));
}

#[test]
fn test_zero_polynomial_shares_interpolate_to_zero() {
    let mut shamir = plain_scheme(5, 3);
    let deltas = shamir
        .generate_zero_polynomial_shares(&[1, 2, 3], 8)
        .unwrap();
    assert_eq!(deltas.len(), 3);
    let shares: Vec<Share> = deltas
        .into_iter()
        .enumerate()
        .map(|(i, data)| Share {
            index: (i + 1) as u8,
            data,
            threshold: 3,
            total_shares: 5,
            integrity_check: false,
            compression: false,
        })
        .collect();
    assert!(shares.iter().any(|s| s.data != vec![0u8; 8]));
    assert_eq!(ShamirShare::reconstruct(&shares).unwrap(), vec![0u8; 8]);
}

#[test]
fn test_refresh_checks_against_the_scheme() {
    let mut issuer = plain_scheme(5, 2);
    let shares = issuer.split(b"refresh").unwrap();
    let mut stricter = plain_scheme(5, 4);
    assert!(matches!(
        stricter.refresh_shares(&shares[0..3]),
        Err(ShamirError::InsufficientShares { needed: 4, got: 3 })
    ));
    assert!(matches!(
        stricter.refresh_shares(&[]),
        Err(ShamirError::InsufficientShares { needed: 1, got: 0 })
    ));
    let refreshed = stricter.refresh_shares(&shares[0..4]).unwrap();
    for (new, old) in refreshed.iter().zip(&shares) {
        assert_eq!(new.index, old.index);
        assert_eq!(new.threshold, old.threshold);
        assert_eq!(new.total_shares, old.total_shares);
        assert_ne!(new.data, old.data);
    }
    assert_eq!(ShamirShare::reconstruct(&refreshed).unwrap(), b"refresh");
}

#[test]
fn test_builder_refusals_in_order() {
    assert!(matches!(
        ShamirShare::builder(0, 0).build(),
        Err(ShamirError::InvalidShareCount(0))
    ));
    assert!(matches!(
        ShamirShare::builder(4, 0).build(),
        Err(ShamirError::InvalidThreshold(0))
    ));
    assert!(matches!(
        ShamirShare::builder(4, 5).build(),
        Err(ShamirError::ThresholdTooLarge { threshold: 5, total_shares: 4 })
    ));
    let mut config = Config::new();
    config.chunk_size = 0;
    assert!(matches!(
        ShamirShare::builder(4, 2).with_config(config).build(),
        Err(ShamirError::InvalidConfig(_))
    ));
    assert!(ShamirShare::builder(255, 255).build().is_ok());
    assert!(ShamirShare::builder(1, 1).build().is_ok());
}

#[test]
fn test_a_refreshed_share_among_old_ones_shows_where_it_changed() {
    let secret = b"two generations";
    let mut shamir = plain_scheme(4, 3);
    let old = shamir.split(secret).unwrap();
    let new = shamir.refresh_shares(&old[0..3]).unwrap();
    assert_eq!(ShamirShare::reconstruct(&new).unwrap(), secret);

    let mixed = vec![old[0].clone(), new[1].clone(), old[2].clone()];
    let recovered = ShamirShare::reconstruct(&mixed).unwrap();
    assert_ne!(recovered, secret);
    for k in 0..secret.len() {
        assert_eq!(
            recovered[k] == secret[k],
            new[1].data[k] == old[1].data[k]
        );
    }
}

use shamir_share::{Config, Dealer, ShamirShare, Share};

fn drain(dealer: &mut Dealer) -> Vec<Share> {
    let mut shares = Vec::new();
    while let Some(share) = dealer.next() {
        shares.push(share);
    }
    shares
}

#[test]
fn test_dealer_basic_functionality() {
    let secret = b"Hello, Dealer!";
    let mut shamir = ShamirShare::builder(5, 3).build().unwrap();

    // Generate shares using dealer
    let dealer_shares: Vec<Share> = shamir.dealer(secret).unwrap().take(5);
    assert_eq!(dealer_shares.len(), 5);

    // Verify share properties
    for (i, share) in dealer_shares.iter().enumerate() {
        assert_eq!(share.index, (i + 1) as u8);
        assert_eq!(share.threshold, 3);
        assert_eq!(share.total_shares, 5);
        assert!(share.integrity_check); // Default is true
    }

    // Reconstruct with threshold shares
    let reconstructed = ShamirShare::reconstruct(&dealer_shares[0..3]).unwrap();
    assert_eq!(&reconstructed, secret);

    // Reconstruct with more than threshold shares
    let reconstructed = ShamirShare::reconstruct(&dealer_shares[1..5]).unwrap();
    assert_eq!(&reconstructed, secret);
}

#[test]
fn test_dealer_vs_split_equivalence() {
    let secret = b"Test equivalence between dealer and split";
    let mut shamir = ShamirShare::builder(7, 4).build().unwrap();

    // Generate shares using split
    let split_shares = shamir.split(secret).unwrap();

    // Generate shares using dealer
    let dealer_shares: Vec<Share> = shamir.dealer(secret).unwrap().take(7);

    // Both should produce the same number of shares
    assert_eq!(split_shares.len(), dealer_shares.len());

    // Both should be reconstructable
    let reconstructed_split = ShamirShare::reconstruct(&split_shares[0..4]).unwrap();
    let reconstructed_dealer = ShamirShare::reconstruct(&dealer_shares[0..4]).unwrap();

    assert_eq!(&reconstructed_split, secret);
    assert_eq!(&reconstructed_dealer, secret);
    assert_eq!(reconstructed_split, reconstructed_dealer);
}

#[test]
fn test_dealer_lazy_evaluation() {
    let secret = b"Lazy evaluation test";
    let mut shamir = ShamirShare::builder(10, 5).build().unwrap();

    // Create dealer but don't consume all shares
    let mut dealer = shamir.dealer(secret).unwrap();

    // Take only first 3 shares
    let first_three: Vec<Share> = dealer.take(3);
    assert_eq!(first_three.len(), 3);
    assert_eq!(first_three[0].index, 1);
    assert_eq!(first_three[1].index, 2);
    assert_eq!(first_three[2].index, 3);

    // Take next 2 shares from the same dealer
    let next_two: Vec<Share> = dealer.take(2);
    assert_eq!(next_two.len(), 2);
    assert_eq!(next_two[0].index, 4);
    assert_eq!(next_two[1].index, 5);

    // Combine shares and reconstruct
    let mut combined_shares = first_three;
    combined_shares.extend(next_two);

    let reconstructed = ShamirShare::reconstruct(&combined_shares).unwrap();
    assert_eq!(&reconstructed, secret);
}

#[test]
fn test_dealer_max_shares_limit() {
    let secret = b"Max shares test";
    let mut shamir = ShamirShare::builder(255, 128).build().unwrap();

    let mut dealer = shamir.dealer(secret).unwrap();

    // Count all shares generated
    let all_shares: Vec<Share> = drain(&mut dealer);
    assert_eq!(all_shares.len(), 255);

    // Verify indices are correct (1 to 255)
    for (i, share) in all_shares.iter().enumerate() {
        assert_eq!(share.index, (i + 1) as u8);
    }

    // Verify reconstruction works with threshold shares
    let reconstructed = ShamirShare::reconstruct(&all_shares[0..128]).unwrap();
    assert_eq!(&reconstructed, secret);
}

#[test]
fn test_dealer_stops_at_255() {
    let secret = b"Stop at 255 test";
    let mut shamir = ShamirShare::builder(255, 128).build().unwrap();

    let mut dealer = shamir.dealer(secret).unwrap();

    // Consume all 255 shares
    let shares: Vec<Share> = drain(&mut dealer);
    assert_eq!(shares.len(), 255);

    // Dealer should be exhausted
    assert_eq!(dealer.next(), None);
    assert_eq!(dealer.next(), None); // Should remain None
}

#[test]
fn test_dealer_size_hint() {
    let secret = b"Size hint test";
    let mut shamir = ShamirShare::builder(10, 5).build().unwrap();

    let mut dealer = shamir.dealer(secret).unwrap();

    // Initial size hint should be 255 (max possible shares)
    assert_eq!(dealer.size_hint(), (255, Some(255)));
    assert_eq!(dealer.len(), 255);

    // Take one share
    let _share = dealer.next().unwrap();
    assert_eq!(dealer.size_hint(), (254, Some(254)));
    assert_eq!(dealer.len(), 254);

    // Take several more
    let _shares: Vec<_> = dealer.take(10);
    assert_eq!(dealer.size_hint(), (244, Some(244)));
    assert_eq!(dealer.len(), 244);
}

#[test]
fn test_dealer_with_integrity_check_disabled() {
    let config = Config::new().with_integrity_check(false);
    let mut shamir = ShamirShare::builder(5, 3)
        .with_config(config)
        .build()
        .unwrap();

    let secret = b"No integrity check";

    // Generate shares using dealer
    let dealer_shares: Vec<Share> = shamir.dealer(secret).unwrap().take(5);

    // Verify integrity_check is false
    for share in &dealer_shares {
        assert!(!share.integrity_check);
    }

    // Should still reconstruct correctly
    let reconstructed = ShamirShare::reconstruct(&dealer_shares[0..3]).unwrap();
    assert_eq!(&reconstructed, secret);

    // Compare with split method
    let split_shares = shamir.split(secret).unwrap();
    let reconstructed_split = ShamirShare::reconstruct(&split_shares[0..3]).unwrap();
    assert_eq!(reconstructed, reconstructed_split);
}

#[test]
fn test_dealer_empty_secret() {
    let secret = b"";
    let mut shamir = ShamirShare::builder(3, 2).build().unwrap();

    let dealer_shares: Vec<Share> = shamir.dealer(secret).unwrap().take(3);
    assert_eq!(dealer_shares.len(), 3);

    let reconstructed = ShamirShare::reconstruct(&dealer_shares[0..2]).unwrap();
    assert_eq!(&reconstructed, secret);
}

#[test]
fn test_dealer_single_byte_secret() {
    let secret = b"x";
    let mut shamir = ShamirShare::builder(5, 3).build().unwrap();

    let dealer_shares: Vec<Share> = shamir.dealer(secret).unwrap().take(5);
    assert_eq!(dealer_shares.len(), 5);

    let reconstructed = ShamirShare::reconstruct(&dealer_shares[0..3]).unwrap();
    assert_eq!(&reconstructed, secret);
}

#[test]
fn test_dealer_different_share_combinations() {
    let secret = b"Different dealer combinations test";
    let mut shamir = ShamirShare::builder(7, 4).build().unwrap();

    let dealer_shares: Vec<Share> = shamir.dealer(secret).unwrap().take(7);

    // Try different combinations of 4 shares
    let combinations = vec![
        vec![0, 1, 2, 3],
        vec![1, 2, 3, 4],
        vec![2, 3, 4, 5],
        vec![0, 2, 4, 6],
        vec![1, 3, 5, 6],
    ];

    for combo in combinations {
        let selected_shares: Vec<Share> =
            combo.iter().map(|&i| dealer_shares[i].clone()).collect();
        let reconstructed = ShamirShare::reconstruct(&selected_shares).unwrap();
        assert_eq!(&reconstructed, secret);
    }
}

#[test]
fn test_dealer_iterator_chain() {
    let secret = b"Iterator chain test";
    let mut shamir = ShamirShare::builder(10, 5).build().unwrap();

    // Filter the dealt shares and keep the first five with an even index
    let mut dealer = shamir.dealer(secret).unwrap();
    let mut even_indexed_shares: Vec<Share> = Vec::new();
    while even_indexed_shares.len() < 5 {
        let share = dealer.next().unwrap();
        if share.index % 2 == 0 {
            even_indexed_shares.push(share);
        }
    }

    assert_eq!(even_indexed_shares.len(), 5);
    for share in &even_indexed_shares {
        assert_eq!(share.index % 2, 0);
    }

    // Should still be able to reconstruct
    let reconstructed = ShamirShare::reconstruct(&even_indexed_shares).unwrap();
    assert_eq!(&reconstructed, secret);
}

#[test]
fn test_dealer_take_stops_when_exhausted() {
    let mut shamir = ShamirShare::builder(3, 2).build().unwrap();
    let mut dealer = shamir.dealer(b"end").unwrap();
    let first = dealer.take(250);
    assert_eq!(first.len(), 250);
    let rest = dealer.take(10);
    assert_eq!(rest.len(), 5);
    assert_eq!(rest[0].index, 251);
    assert_eq!(rest[4].index, 255);
    assert_eq!(dealer.len(), 0);
    assert!(dealer.take(3).is_empty());
}

#[test]
fn test_dealer_shares_agree_whenever_they_are_pulled() {
    // Shares pulled as 1..3 and then 4..5 are values of the same polynomials:
    // any three of them reconstruct the secret.
    let config = Config::new().with_integrity_check(false);
    let mut shamir = ShamirShare::builder(5, 3)
        .with_config(config)
        .build()
        .unwrap();
    let mut dealer = shamir.dealer(b"same polynomials").unwrap();
    let mut shares = dealer.take(3);
    shares.extend(dealer.take(2));
    let picked = vec![shares[0].clone(), shares[3].clone(), shares[4].clone()];
    assert_eq!(
        ShamirShare::reconstruct(&picked).unwrap(),
        b"same polynomials"
    );
}

use shamir_share::storage::{decode_share, parse_share_file_name};
use shamir_share::{ShamirShare, Share};

fn random_bytes(max_len: usize) -> Vec<u8> {
    let len = rand::random::<u32>() as usize % (max_len + 1);
    (0..len).map(|_| rand::random::<u8>()).collect()
}

fn random_share(data_len: usize) -> Share {
    Share {
        index: rand::random::<u8>() % 8,
        data: (0..data_len).map(|_| rand::random::<u8>()).collect(),
        threshold: rand::random::<u8>() % 6,
        total_shares: rand::random::<u8>(),
        integrity_check: rand::random::<u8>() % 4 != 0,
        compression: rand::random::<u8>() % 4 == 0,
    }
}

#[test]
fn test_malformed_shares_give_a_result() {
    for _ in 0..2000 {
        let count = rand::random::<u8>() as usize % 6;
        let data_len = rand::random::<u8>() as usize % 48;
        let mut shares: Vec<Share> = (0..count).map(|_| random_share(data_len)).collect();
        if !shares.is_empty() && rand::random::<u8>() % 4 == 0 {
            shares[0].data.pop();
        }
        // Whatever comes back, it comes back.
        let _ = ShamirShare::reconstruct(&shares);
        let _ = ShamirShare::reconstruct_chunk(&shares);
        let _ = ShamirShare::compute_lagrange_coefficients(&shares);
        if let Ok(mut scheme) = ShamirShare::builder(5, 3).build() {
            let _ = scheme.refresh_shares(&shares);
        }
    }
}

#[test]
fn test_malformed_streams_give_a_result() {
    for _ in 0..2000 {
        let count = rand::random::<u8>() as usize % 4;
        let mut sources: Vec<Vec<u8>> = (0..count).map(|_| random_bytes(40)).collect();
        for (i, source) in sources.iter_mut().enumerate() {
            // Mostly plausible headers and lengths, so that the decoding gets somewhere.
            if source.len() >= 6 && rand::random::<u8>() % 4 != 0 {
                source[0] = 0;
                source[1] = (i + 1) as u8;
                source[2] = rand::random::<u8>() % 8;
                source[3] = 0;
                source[4] = 0;
                source[5] = 0;
            }
        }
        let mut destination = Vec::new();
        let _ = ShamirShare::reconstruct_stream(&sources, &mut destination);
    }
}

#[test]
fn test_malformed_stored_bytes_give_a_result() {
    for _ in 0..2000 {
        let mut bytes = random_bytes(40);
        if bytes.len() >= 13 && rand::random::<u8>() % 2 == 0 {
            bytes[..4].copy_from_slice(b"SHS1");
            bytes[4] = rand::random::<u8>() % 4;
            bytes[10] = 0;
            bytes[11] = 0;
            bytes[12] = 0;
        }
        let index = if bytes.len() > 6 { bytes[6] } else { 1 };
        if let Ok(share) = decode_share(&bytes, index) {
            assert_eq!(share.index, index);
            assert_eq!(share.data.len(), bytes[9] as usize);
        }
        let _ = parse_share_file_name(&bytes);
    }
}

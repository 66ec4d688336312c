use shamir_share::ShamirError;
use std::io;

#[test]
fn test_error_messages() {
    let cases: Vec<(ShamirError, &str)> = vec![
        (ShamirError::InvalidThreshold(0), "Invalid threshold value 0"),
        (ShamirError::InvalidShareCount(0), "Invalid share count 0"),
        (
            ShamirError::ThresholdTooLarge { threshold: 200, total_shares: 99 },
            "Threshold 200 exceeds total shares 99",
        ),
        (
            ShamirError::InsufficientShares { needed: 3, got: 2 },
            "Need at least 3 shares, got 2",
        ),
        (ShamirError::InvalidShareIndex(255), "Invalid share index 255"),
        (ShamirError::IntegrityCheckFailed, "Data integrity check failed"),
        (ShamirError::InvalidShareFormat, "Invalid share format"),
        (ShamirError::InconsistentShareLength, "Inconsistent share lengths"),
        (
            ShamirError::CompressionError("too big".to_string()),
            "Compression error: too big",
        ),
        (
            ShamirError::DecompressionError("bad frame".to_string()),
            "Decompression error: bad frame",
        ),
        (
            ShamirError::InvalidConfig("Chunk size cannot be zero".to_string()),
            "Invalid configuration: Chunk size cannot be zero",
        ),
        (ShamirError::StorageError("full".to_string()), "Storage error: full"),
    ];
    for (error, expected) in cases {
        assert_eq!(error.message(), expected);
    }
}

#[test]
fn test_io_error_message_and_conversion() {
    let error: ShamirError = io::Error::new(io::ErrorKind::Other, "disk on fire").into();
    assert!(matches!(error, ShamirError::IoError(_)));
    assert_eq!(error.message(), "I/O error: disk on fire");

    fn read() -> Result<(), ShamirError> {
        Err(io::Error::from(io::ErrorKind::UnexpectedEof))?;
        Ok(())
    }
    assert!(matches!(read(), Err(ShamirError::IoError(_))));
}

#[test]
fn test_decimal_in_messages() {
    for n in [0u8, 1, 9, 10, 11, 99, 100, 101, 199, 200, 255] {
        assert_eq!(
            ShamirError::InvalidThreshold(n).message(),
            format!("Invalid threshold value {}", n)
        );
    }
}

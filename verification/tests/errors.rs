use foyer_block::error::{Error, ErrorKind};

#[test]
fn every_error_has_its_kind() {
    let cases = vec![
        (Error::Io { code: 1 }, ErrorKind::Io),
        (Error::Parse { value: 1 }, ErrorKind::Parse),
        (Error::MagicMismatch { expected: 1, get: 2 }, ErrorKind::MagicMismatch),
        (Error::ChecksumMismatch { expected: 1, get: 2 }, ErrorKind::ChecksumMismatch),
        (Error::OutOfRange { len: 1, start: 2, end: 3 }, ErrorKind::OutOfRange),
        (Error::NoSpace { capacity: 1, allocated: 1, required: 2 }, ErrorKind::NoSpace),
        (Error::Closed, ErrorKind::Closed),
        (Error::Join, ErrorKind::Join),
        (Error::Recover { reasons: vec![] }, ErrorKind::Recover),
        (Error::Unsupported, ErrorKind::Unsupported),
        (Error::External { code: 1 }, ErrorKind::External),
    ];
    for (error, kind) in cases {
        assert_eq!(error.kind(), kind);
    }
}

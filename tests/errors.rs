use antler::errors::{AntlerError, ErrorBuilder, IoContext};
use std::io;

#[test]
fn test_error_display() {
    let err = AntlerError::TreeStructureViolation {
        path: "users/alice/profile".to_string(),
        parent: "users/alice".to_string(),
        reason: "Parent is a scalar value, not a tree node".to_string(),
    };

    let msg = err.describe();
    assert!(msg.contains("users/alice/profile"));
    assert!(msg.contains("users/alice"));
    assert!(msg.contains("scalar value"));
}

#[test]
fn test_io_context() {
    let io_err = io::Error::new(io::ErrorKind::PermissionDenied, "access denied");
    let result: io::Result<()> = Err(io_err);

    let antler_result = result.io_context("opening WAL file");
    assert!(antler_result.is_err());

    let err = antler_result.unwrap_err();
    let msg = err.describe();
    assert!(msg.contains("opening WAL file"));
    assert!(msg.contains("access denied"));
}

#[test]
fn test_error_builder() {
    let err = ErrorBuilder::tree_violation("users/bob/settings")
        .parent("users/bob")
        .reason("Cannot add children to scalar values")
        .build();

    let msg = err.describe();
    assert!(msg.contains("users/bob/settings"));
    assert!(msg.contains("users/bob"));
    assert!(msg.contains("Cannot add children"));
}

#[test]
fn builder_reason_keeps_other_errors() {
    let err = ErrorBuilder::tree_violation("a/b").reason("why").build();
    match err {
        AntlerError::TreeStructureViolation { path, parent, reason } => {
            assert_eq!(path, "a/b");
            assert_eq!(parent, "");
            assert_eq!(reason, "why");
        }
        _ => panic!("wrong variant"),
    }
}

#[test]
fn describe_formats_numbers() {
    let err = AntlerError::SegmentCorruption {
        path: "l0_0000000001.seg".to_string(),
        offset: 4096,
        reason: "Bad magic".to_string(),
    };
    assert_eq!(err.describe(), "Segment 'l0_0000000001.seg' corrupted at offset 4096: Bad magic");
    let t = AntlerError::Timeout { operation: "sync".to_string(), duration_ms: 0 };
    assert_eq!(t.describe(), "Operation 'sync' timed out after 0ms");
    assert!(!t.is_io());
}

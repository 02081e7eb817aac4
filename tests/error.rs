use dejavu::align::{align_checked, FingerprintDifference};
use dejavu::error::ServiceError;
use dejavu::fingerprint::Fingerprint;

#[test]
fn error_statuses() {
    assert_eq!(ServiceError::Decode.status(), 400);
    assert_eq!(ServiceError::EmptyInput.status(), 400);
    assert_eq!(ServiceError::NoMatches.status(), 400);
    assert_eq!(ServiceError::UnknownReference.status(), 404);
    assert_eq!(ServiceError::Internal.status(), 500);
}

#[test]
fn checked_alignment_reports_each_error() {
    let a = vec![Fingerprint { hash: 1, time: 4 }];
    let b = vec![Fingerprint { hash: 1, time: 1 }];
    let c = vec![Fingerprint { hash: 2, time: 1 }];
    let huge = vec![Fingerprint { hash: 1, time: usize::MAX }];
    assert_eq!(
        align_checked(&a, &b),
        Ok(FingerprintDifference { most_common_offset: 3, most_common_offset_occurences: 1, first_sample_offset_match: 1 })
    );
    assert_eq!(align_checked(&a, &c), Err(ServiceError::NoMatches));
    assert_eq!(align_checked(&[], &b), Err(ServiceError::NoMatches));
    assert_eq!(align_checked(&huge, &b), Err(ServiceError::Internal));
    assert_eq!(align_checked(&a, &huge), Err(ServiceError::Internal));
}

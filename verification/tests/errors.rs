use licenses_core::item::Attr;
use licenses_core::{ApiError, RuntimeError};

#[test]
fn runtime_api_error() {
    match ApiError::from(RuntimeError::ClientConfigLoadingError(
        "environment variable not found".to_string(),
    )) {
        ApiError::RuntimeError(_) => {}
        _ => {
            panic!("Invalid error type.");
        }
    }
}

#[test]
fn runtime_messages_are_tagged_by_operation() {
    assert_eq!(
        "PutItemError: timed out",
        RuntimeError::PutItemError("timed out".to_string()).message()
    );
    assert_eq!(
        "GetItemError: timed out",
        RuntimeError::GetItemError("timed out".to_string()).message()
    );
    assert_eq!(
        "DeleteItemError: timed out",
        RuntimeError::DeleteItemError("timed out".to_string()).message()
    );
    assert_eq!(
        "QueryError: timed out",
        RuntimeError::QueryError("timed out".to_string()).message()
    );
    assert_eq!(
        "ClientConfigLoadingError: LICENSES_TABLE",
        RuntimeError::ClientConfigLoadingError("LICENSES_TABLE".to_string()).message()
    );
    assert_eq!(
        "SerializationError: bad attribute",
        RuntimeError::SerializationError("bad attribute".to_string()).message()
    );
    assert_eq!(
        "DataError: expected a string",
        RuntimeError::DataError(Attr::N("2".to_string()), "expected a string".to_string())
            .message()
    );
}

#[test]
fn wrapped_message_passes_through_unchanged() {
    let cause = RuntimeError::QueryError("connection reset".to_string());
    let expected = cause.message();
    let wrapped = ApiError::from(cause);
    assert_eq!(expected, wrapped.message());
}

#[test]
fn not_found_is_a_distinct_case() {
    let err = ApiError::LicenseNotFound("tides.2023".to_string());
    assert!(matches!(err, ApiError::LicenseNotFound(_)));
    assert_eq!("License not found.", err.message());
}

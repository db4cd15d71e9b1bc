use infotainer::client::ClientID;
use infotainer::data_log::DataLogError;
use infotainer::errors::{ClientError as OldClientError, DataLogError as OldDataLogError,
    PublicationError as OldPublicationError};
use infotainer::ids::Uid;
use infotainer::pubsub::PublicationError;
use infotainer::sessions::{SessionError, SessionService};
use infotainer::websocket::ClientError;

#[test]
fn errors_test_client_error() {
    let err = OldClientError::InvalidInput(String::from("Test"));
    assert_eq!("Invalid Input: Test", err.message());
}

#[test]
fn websocket_test_client_error() {
    let err = ClientError::InvalidInput(String::from("Test"));
    assert_eq!("Invalid Input: Test", err.message());
}

#[test]
fn errors_test_wrapping_uuid_errors() {
    let err = ClientID::try_from_str("notauuidstring").unwrap_err();
    assert_eq!(
        "Invalid Input: invalid length: expected one of [36, 32], found 14",
        err.message()
    );
}

#[test]
fn websocket_test_wrapping_uuid_errors() {
    // a well-formed identifier parses and survives the textual round trip
    let id = ClientID::try_from_str("00112233-4455-6677-8899-aabbccddeeff").unwrap();
    assert_eq!(id.id(), Uid::new(0x0011223344556677, 0x8899aabbccddeeff));
    // a malformed one is rejected with the parser's own words
    let err = ClientID::try_from_str("also-not-a-uuid").unwrap_err();
    assert!(matches!(err, OldClientError::InvalidInput(_)));
}

#[test]
fn publication_error_messages() {
    assert_eq!(
        PublicationError::DataLoggingError(String::from("x")).message(),
        "Could not log publication to the data log: x"
    );
    assert_eq!(
        PublicationError::SessionService(String::from("x")).message(),
        "Error while communicating with SessionService: x"
    );
    assert_eq!(
        PublicationError::Publishing(String::from("x")).message(),
        "Error while publishing: x"
    );
    assert_eq!(
        PublicationError::Subscriptions(String::from("x")).message(),
        "Error while handling subscriptions: x"
    );
    assert_eq!(
        OldPublicationError::DataLoggingError(String::from("x")).message(),
        "Could not log publication to the data log: x"
    );
}

#[test]
fn data_log_error_messages() {
    assert_eq!(
        DataLogError::FileSystem(String::from("x")).message(),
        "Fs error: x"
    );
    assert_eq!(
        DataLogError::PullIndex(String::from("x")).message(),
        "Failed sending index: x"
    );
    assert_eq!(
        DataLogError::PullDataLogEntry(String::from("x")).message(),
        "Failed sending log entries: x"
    );
    assert_eq!(
        DataLogError::PutDataLogEntry(String::from("x")).message(),
        "Could not process DataLogPut: x"
    );
    assert_eq!(
        DataLogError::WriteError(String::from("x")).message(),
        "Could not write data: x"
    );
    assert_eq!(
        OldDataLogError::FileSystem(String::from("x")).message(),
        "Encountered error during file system interaction: x"
    );
    assert_eq!(
        OldDataLogError::DataLogRequest(String::from("x")).message(),
        "Sending DataLog message to DataLogger failed: x"
    );
    assert_eq!(
        OldDataLogError::SerializerError(String::from("x")).message(),
        "Could not serialize data for writing to disk: x"
    );
}

#[test]
fn session_error_names_the_client() {
    let registry = SessionService::new();
    let absent = Uid::new(0x0011223344556677, 0x8899aabbccddeeff);
    let err = registry.get_session_addr(&absent).unwrap_err();
    match &err {
        SessionError::SessionNotFound(m) => {
            // the textual form is the uuid crate's hyphenated rendering
            assert_eq!(m, &uuid::Uuid::from_u128(0x00112233445566778899aabbccddeeff).to_string());
        }
    }
    assert_eq!(
        err.message(),
        "Invalid Input: 00112233-4455-6677-8899-aabbccddeeff"
    );
}

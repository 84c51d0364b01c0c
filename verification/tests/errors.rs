use alda::errors::Error;
use alda::torrent::{DecodeError, Field};

#[test]
fn errors_name_the_path() {
    assert_eq!(
        Error::Io { path: "t/a.torrent".to_string(), message: "permission denied".to_string() }
            .message(),
        "Can't read torrent from t/a.torrent: permission denied"
    );
    assert_eq!(
        Error::Decode { path: "t/a.torrent".to_string(), reason: DecodeError::Malformed }.message(),
        "Can't parse torrent from t/a.torrent: not a bencoded value"
    );
    assert_eq!(
        Error::Traverse { path: "src/x".to_string(), message: "no such file".to_string() }
            .message(),
        "Can't list src/x: no such file"
    );
    assert_eq!(
        Error::Encoding { path: "src/caf\u{fffd}".to_string() }.message(),
        "Entry src/caf\u{fffd} contains symbols beyond UTF-8 range"
    );
    assert_eq!(Error::UnknownLayout.message(), "Unknown layout");
}

#[test]
fn decode_errors_say_what_is_wrong() {
    assert_eq!(DecodeError::Malformed.message(), "not a bencoded value");
    assert_eq!(DecodeError::NotADictionary.message(), "not a dictionary");
    assert_eq!(DecodeError::Missing(Field::Info).message(), "no entry info");
    assert_eq!(DecodeError::Missing(Field::Name).message(), "no entry name");
    assert_eq!(DecodeError::Repeated(Field::Info).message(), "more than one entry info");
    assert_eq!(DecodeError::Repeated(Field::Name).message(), "more than one entry name");
    assert_eq!(DecodeError::WrongType(Field::Info).message(), "wrong type of entry info");
    assert_eq!(DecodeError::WrongType(Field::Name).message(), "wrong type of entry name");
    assert_eq!(DecodeError::NameNotText.message(), "name is not UTF-8 text");
    assert_eq!(Field::Info.key(), "info");
    assert_eq!(Field::Name.key(), "name");
}

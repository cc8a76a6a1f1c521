use storage_proxy::drain::{drain_chunks, StreamDrainer};
use storage_proxy::error::{translate, AdmissionControlledS3StorageError, ErrorCodes, GetError};

#[test]
fn zero_chunks_is_an_empty_object() {
    assert_eq!(drain_chunks(vec![]), Ok(vec![]));
}

#[test]
fn chunks_are_joined_in_order() {
    let items = vec![Ok(b"he".to_vec()), Ok(vec![]), Ok(b"llo".to_vec())];
    assert_eq!(drain_chunks(items), Ok(b"hello".to_vec()));
}

#[test]
fn missing_object_is_not_found() {
    let items = vec![Err(GetError::NoSuchKey("missing".to_string()))];
    assert_eq!(
        drain_chunks(items),
        Err(AdmissionControlledS3StorageError::NotFound("missing".to_string()))
    );
}

#[test]
fn chunk_error_discards_partial_bytes() {
    let items = vec![
        Ok(b"par".to_vec()),
        Err(GetError::S3Error("reset".to_string())),
        Ok(b"tial".to_vec()),
        Err(GetError::NoSuchKey("later".to_string())),
    ];
    assert_eq!(
        drain_chunks(items),
        Err(AdmissionControlledS3StorageError::BackendError("reset".to_string()))
    );
}

#[test]
fn drainer_step_by_step() {
    let mut d = StreamDrainer::new();
    assert_eq!(d.accept(Ok(b"ab".to_vec())), None);
    assert_eq!(d.accept(Ok(b"c".to_vec())), None);
    assert_eq!(d.into_bytes(), b"abc".to_vec());

    let mut d = StreamDrainer::new();
    assert_eq!(d.accept(Ok(b"ab".to_vec())), None);
    assert_eq!(
        d.accept(Err(GetError::S3Error("boom".to_string()))),
        Some(AdmissionControlledS3StorageError::BackendError("boom".to_string()))
    );
    assert_eq!(d.into_bytes(), Vec::<u8>::new());
}

#[test]
fn translation_of_each_remote_error() {
    let nf = translate(GetError::NoSuchKey("k".to_string()));
    assert_eq!(nf, AdmissionControlledS3StorageError::NotFound("k".to_string()));
    assert_eq!(nf.code(), ErrorCodes::NotFound);
    assert_eq!(nf.message(), "k");
    let be = translate(GetError::S3Error("down".to_string()));
    assert_eq!(be, AdmissionControlledS3StorageError::BackendError("down".to_string()));
    assert_eq!(be.code(), ErrorCodes::Internal);
    assert_eq!(be.message(), "down");
}

#[test]
fn local_errors_are_not_remote() {
    assert!(!GetError::LocalError("disk".to_string()).remote());
    assert!(GetError::NoSuchKey("k".to_string()).remote());
    assert!(GetError::S3Error("e".to_string()).remote());
}

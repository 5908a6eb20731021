use cw_store::crypto::CryptoError;

// constructors
#[test]
fn batch_err_works() {
    let error = CryptoError::batch_err(String::from("something went wrong in a batch way"));
    match error {
        CryptoError::BatchErr { msg, .. } => {
            assert_eq!(msg, "something went wrong in a batch way")
        }
        _ => panic!("wrong error type!"),
    }
}

#[test]
fn generic_err_works() {
    let error = CryptoError::generic_err(String::from("something went wrong in a general way"));
    match error {
        CryptoError::GenericErr { msg, .. } => {
            assert_eq!(msg, "something went wrong in a general way")
        }
        _ => panic!("wrong error type!"),
    }
}

#[test]
fn invalid_hash_format_works() {
    let error = CryptoError::invalid_hash_format();
    match error {
        CryptoError::InvalidHashFormat => {}
        _ => panic!("wrong error type!"),
    }
}

#[test]
fn invalid_signature_format_works() {
    let error = CryptoError::invalid_signature_format();
    match error {
        CryptoError::InvalidSignatureFormat => {}
        _ => panic!("wrong error type!"),
    }
}

#[test]
fn invalid_pubkey_format_works() {
    let error = CryptoError::invalid_pubkey_format();
    match error {
        CryptoError::InvalidPubkeyFormat => {}
        _ => panic!("wrong error type!"),
    }
}

#[test]
fn invalid_recovery_param_works() {
    let error = CryptoError::invalid_recovery_param();
    match error {
        CryptoError::InvalidRecoveryParam => {}
        _ => panic!("wrong error type!"),
    }
}

#[test]
fn codes_are_stable() {
    assert_eq!(CryptoError::invalid_hash_format().code(), 3);
    assert_eq!(CryptoError::invalid_signature_format().code(), 4);
    assert_eq!(CryptoError::invalid_pubkey_format().code(), 5);
    assert_eq!(CryptoError::invalid_recovery_param().code(), 6);
    assert_eq!(CryptoError::batch_err(String::from("b")).code(), 7);
    assert_eq!(CryptoError::generic_err(String::from("g")).code(), 10);
}

use soter::key_pair::KeyPair;

#[test]
fn key_pair_rejects_wrong_length() {
    assert!(KeyPair::from_bytes(&[0u8; 84]).is_err());
    assert!(KeyPair::from_bytes(&[0u8; 86]).is_err());
}

#[test]
fn key_pair_rejects_garbage_document() {
    assert!(KeyPair::from_bytes(&[0u8; 85]).is_err());
}

#[test]
fn key_pair_reads_generated_document_and_signs() {
    let rng = ring::rand::SystemRandom::new();
    let document = ring::signature::Ed25519KeyPair::generate_pkcs8(&rng).unwrap();
    let pair = KeyPair::from_bytes(document.as_ref()).unwrap();
    assert_eq!(&pair.as_bytes()[..], document.as_ref());
    let signature = pair.sign(b"hello");
    let public_key = pair.public_key();
    let verifier = ring::signature::UnparsedPublicKey::new(&ring::signature::ED25519, &public_key[..]);
    assert!(verifier.verify(b"hello", &signature).is_ok());
    assert!(verifier.verify(b"hullo", &signature).is_err());
}

#[test]
fn key_generation_error_describes_itself() {
    let error = KeyPair::from_bytes(&[]).err().unwrap();
    assert_eq!(error.description(), "key generation failed");
}

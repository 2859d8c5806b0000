use did_key::{CoreSign, Ed25519KeyPair, Fingerprint, PatchedKeyPair};
use mycelium::attributes::Attribute;
use mycelium::errors::{MyceliumError, SporeError};
use mycelium::mycelium::Mycelium;
use mycelium::spore::{Spore, Sporeprint};

/// A capability backed by a real DID ed25519 keypair.
struct KeySpore {
    key: PatchedKeyPair,
}

impl Spore for KeySpore {
    fn new() -> Self {
        KeySpore { key: did_key::generate::<Ed25519KeyPair>(None) }
    }

    fn sporeprint(&self) -> Sporeprint {
        self.key.fingerprint()
    }

    fn sign(&self, data: &[u8]) -> Result<Vec<u8>, SporeError> {
        Ok(self.key.sign(data))
    }

    fn verify(&self, data: &[u8], signature: &[u8]) -> Result<(), SporeError> {
        self.key
            .verify(data, signature)
            .map_err(|e| SporeError::VerifyError(format!("{:?}", e)))
    }

    fn resolve(sporeprint: &Sporeprint) -> Result<Self, SporeError> {
        let key = did_key::resolve(&format!("did:key:{}", sporeprint))
            .map_err(|e| SporeError::ResolveError(format!("{:?}", e)))?;
        Ok(KeySpore { key })
    }
}

#[test]
fn keypair_sporeprint_is_nonempty() {
    let spore = KeySpore::new();
    assert_ne!(spore.sporeprint(), "");
}

#[test]
fn keypair_signs_and_verifies_data() {
    let spore = KeySpore::new();
    let data = "Hello, world!";
    let signature = spore.sign(data.as_bytes()).unwrap();
    assert!(!signature.is_empty());
    spore.verify(data.as_bytes(), &signature).unwrap();
}

#[test]
fn resolved_keypair_verifies_without_private_material() {
    let spore = KeySpore::new();
    let print = spore.sporeprint();
    let data = "Hello, world!";
    let signature = spore.sign(data.as_bytes()).unwrap();
    let resolved = KeySpore::resolve(&print).unwrap();
    resolved.verify(data.as_bytes(), &signature).unwrap();
}

#[test]
fn resolve_of_malformed_identifier_fails() {
    match KeySpore::resolve(&String::from("not a fingerprint")) {
        Err(SporeError::ResolveError(_)) => {},
        other => panic!("expected a resolution error, got {:?}", other.is_ok()),
    }
}

#[test]
fn tree_roundtrip_with_real_keypair() {
    let spore = KeySpore::new();
    let print = spore.sporeprint();
    let mut root = Mycelium::new(KeySpore { key: did_key::generate::<Ed25519KeyPair>(None) })
        .unwrap();
    root.add(Mycelium::from_origin(print.clone(), 11)).unwrap();
    root.sign(&spore).unwrap();
    root.verify(&spore).unwrap();

    let resolved = KeySpore::resolve(&print).unwrap();
    root.verify(&resolved).unwrap();

    root.set_attr(Attribute::OriginMoment(123456789)).unwrap();
    match root.verify(&spore) {
        Err(MyceliumError::SporeError(SporeError::VerifyError(_))) => {},
        other => panic!("expected an invalid signature, got {:?}", other),
    }
}

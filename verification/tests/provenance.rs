use mycelium::attributes::Attribute;
use sha2::Digest;
use mycelium::errors::{MyceliumError, SporeError};
use mycelium::mycelium::{Hypha, Mycelium};
use mycelium::spore::{Spore, Sporeprint};

/// A deterministic capability for tests: its signature of a message is the
/// message reversed, and verification recomputes it.
struct EchoSpore {
    print: String,
    refuse_sign: bool,
}

impl EchoSpore {
    fn named(print: &str) -> EchoSpore {
        EchoSpore { print: String::from(print), refuse_sign: false }
    }
}

impl Spore for EchoSpore {
    fn new() -> Self {
        EchoSpore::named("echo")
    }

    fn sporeprint(&self) -> Sporeprint {
        self.print.clone()
    }

    fn sign(&self, data: &[u8]) -> Result<Vec<u8>, SporeError> {
        if self.refuse_sign {
            return Err(SporeError::SignError(String::from("refused")));
        }
        let mut v = data.to_vec();
        v.reverse();
        Ok(v)
    }

    fn verify(&self, data: &[u8], signature: &[u8]) -> Result<(), SporeError> {
        let mut v = data.to_vec();
        v.reverse();
        if v.as_slice() == signature {
            Ok(())
        } else {
            Err(SporeError::VerifyError(String::from("signature does not match")))
        }
    }

    fn resolve(sporeprint: &Sporeprint) -> Result<Self, SporeError> {
        Ok(EchoSpore { print: sporeprint.clone(), refuse_sign: true })
    }
}

fn count_kind(node: &Mycelium, probe: &Attribute) -> usize {
    node.get_attrs().iter().filter(|a| a.shallow_eq(probe)).count()
}

#[test]
fn new_node_has_origin_and_no_signature() {
    let node = Mycelium::new(EchoSpore::named("alpha")).unwrap();
    assert!(node.has_origin());
    assert!(node.get_attr(Attribute::OriginSignature(vec![])).is_none());
    let (print, moment) = node.get_origin();
    assert_eq!(print.unwrap(), "alpha");
    assert!(moment.is_some());
}

#[test]
fn from_origin_builds_exact_attributes() {
    let node = Mycelium::from_origin(String::from("alpha"), 7);
    assert_eq!(node.get_attrs().len(), 2);
    assert!(node.has_origin());
    let (print, moment) = node.get_origin();
    assert_eq!(print.unwrap(), "alpha");
    assert_eq!(*moment.unwrap(), 7);
    assert!(node.get_mycelia().is_empty());
}

#[test]
fn set_attr_same_kind_twice_keeps_one_latest() {
    let mut node = Mycelium::from_origin(String::from("alpha"), 7);
    node.set_attr(Attribute::OriginMoment(100)).unwrap();
    node.set_attr(Attribute::OriginMoment(200)).unwrap();
    assert_eq!(count_kind(&node, &Attribute::OriginMoment(0)), 1);
    match node.get_attr(Attribute::OriginMoment(0)) {
        Some(Attribute::OriginMoment(m)) => assert_eq!(*m, 200),
        other => panic!("unexpected attribute: {:?}", other),
    }
}

#[test]
fn set_attr_keeps_order_of_other_kinds() {
    let mut node = Mycelium::from_origin(String::from("alpha"), 7);
    node.set_attr(Attribute::OriginSpore(String::from("beta"))).unwrap();
    let attrs = node.get_attrs();
    assert!(matches!(attrs[0], Attribute::OriginMoment(7)));
    assert!(matches!(&attrs[1], Attribute::OriginSpore(p) if p == "beta"));
}

#[test]
fn sign_then_verify_succeeds_unmutated() {
    let spore = EchoSpore::named("signer");
    let mut parent = Mycelium::from_origin(String::from("signer"), 1);
    parent.add(Mycelium::from_origin(String::from("kid"), 2)).unwrap();
    let before = parent.get_hash();
    parent.sign(&spore).unwrap();
    assert_eq!(parent.get_hash(), before);
    parent.verify(&spore).unwrap();
}

#[test]
fn verify_fails_invalid_after_mutation() {
    let spore = EchoSpore::named("signer");
    let mut parent = Mycelium::from_origin(String::from("signer"), 1);
    parent.add(Mycelium::from_origin(String::from("kid"), 2)).unwrap();
    parent.sign(&spore).unwrap();
    match &mut parent.mycelia[0] {
        Hypha::Owned(child) => child.set_attr(Attribute::OriginMoment(99)).unwrap(),
        Hypha::Reference(_) => panic!("expected an owned child"),
    }
    match parent.verify(&spore) {
        Err(MyceliumError::SporeError(SporeError::VerifyError(_))) => {},
        other => panic!("expected the capability to reject, got {:?}", other),
    }
}

#[test]
fn verify_without_signature_is_missing_not_invalid() {
    let spore = EchoSpore::named("signer");
    let node = Mycelium::from_origin(String::from("signer"), 1);
    match node.verify(&spore) {
        Err(MyceliumError::SignatureError(_)) => {},
        other => panic!("expected the missing-signature error, got {:?}", other),
    }
}

#[test]
fn sign_propagates_capability_refusal() {
    let mut refusing = EchoSpore::named("signer");
    refusing.refuse_sign = true;
    let mut node = Mycelium::from_origin(String::from("signer"), 1);
    match node.sign(&refusing) {
        Err(MyceliumError::SporeError(SporeError::SignError(_))) => {},
        other => panic!("expected the wrapped capability error, got {:?}", other),
    }
    assert!(node.get_attr(Attribute::OriginSignature(vec![])).is_none());
}

fn three_level_tree() -> Mycelium {
    let mut root = Mycelium::from_origin(String::from("root"), 0);
    let mut mid = Mycelium::from_origin(String::from("mid"), 1);
    mid.add(Mycelium::from_origin(String::from("leaf"), 2)).unwrap();
    root.add(mid).unwrap();
    root
}

#[test]
fn scan_depth_zero_finds_nothing() {
    let root = three_level_tree();
    let target = String::from("mid");
    assert_eq!(root.scan(&target, Some(0)).unwrap(), None);
}

#[test]
fn scan_depth_one_reaches_direct_children_only() {
    let root = three_level_tree();
    let mid = String::from("mid");
    let leaf = String::from("leaf");
    assert_eq!(root.scan(&mid, Some(1)).unwrap(), Some(1));
    assert_eq!(root.scan(&leaf, Some(1)).unwrap(), None);
    assert_eq!(root.scan(&leaf, Some(2)).unwrap(), Some(2));
}

#[test]
fn scan_unbounded_returns_sentinel_depth() {
    let root = three_level_tree();
    let leaf = String::from("leaf");
    let absent = String::from("nobody");
    assert_eq!(root.scan(&leaf, None).unwrap(), Some(0));
    assert_eq!(root.scan(&absent, None).unwrap(), None);
}

#[test]
fn scan_matches_reference_children() {
    let mut root = Mycelium::from_origin(String::from("root"), 0);
    root.mycelia.push(Hypha::Reference(String::from("ghost")));
    let ghost = String::from("ghost");
    assert_eq!(root.scan(&ghost, Some(1)).unwrap(), Some(1));
}

#[test]
fn add_appends_child_and_refreshes_update() {
    let mut parent = Mycelium::from_origin(String::from("parent"), 0);
    parent.add(Mycelium::from_origin(String::from("kid"), 1)).unwrap();
    assert_eq!(parent.get_mycelia().len(), 1);
    assert!(parent.get_attr(Attribute::LastUpdate(0)).is_some());
    match &parent.mycelia[0] {
        Hypha::Owned(child) => {
            let (print, _) = child.get_origin();
            assert_eq!(print.unwrap(), "kid");
        },
        Hypha::Reference(_) => panic!("expected an owned child"),
    }
}

#[test]
fn add_removes_parents_claim_to_childs_origin() {
    let mut parent = Mycelium::from_origin(String::from("shared"), 0);
    parent.add(Mycelium::from_origin(String::from("shared"), 1)).unwrap();
    let (print, moment) = parent.get_origin();
    assert!(print.is_none());
    assert!(moment.is_some());
    assert!(parent.get_attr(Attribute::OriginSpore(String::new())).is_none());
}

#[test]
fn prune_dedups_to_most_recent_of_each_origin() {
    let mut parent = Mycelium::from_origin(String::from("parent"), 0);
    parent.add(Mycelium::from_origin(String::from("A"), 1)).unwrap();
    parent.add(Mycelium::from_origin(String::from("B"), 2)).unwrap();
    parent.add(Mycelium::from_origin(String::from("A"), 3)).unwrap();
    parent.prune().unwrap();
    let children = parent.get_mycelia();
    assert_eq!(children.len(), 3);
    assert!(matches!(&children[0], Hypha::Reference(p) if p == "A"));
    match &children[1] {
        Hypha::Owned(b) => {
            assert_eq!(b.get_origin().0.unwrap(), "B");
            assert_eq!(*b.get_origin().1.unwrap(), 2);
        },
        Hypha::Reference(_) => panic!("B must stay owned"),
    }
    match &children[2] {
        Hypha::Owned(a) => {
            assert_eq!(a.get_origin().0.unwrap(), "A");
            assert_eq!(*a.get_origin().1.unwrap(), 3);
        },
        Hypha::Reference(_) => panic!("the most recent A must stay owned"),
    }
}

#[test]
fn prune_ties_keep_the_earlier_child() {
    let mut parent = Mycelium::from_origin(String::from("parent"), 0);
    parent.add(Mycelium::from_origin(String::from("A"), 5)).unwrap();
    parent.add(Mycelium::from_origin(String::from("A"), 5)).unwrap();
    parent.prune().unwrap();
    let children = parent.get_mycelia();
    assert!(matches!(&children[0], Hypha::Owned(_)));
    assert!(matches!(&children[1], Hypha::Reference(p) if p == "A"));
}

#[test]
fn prune_removes_originless_children_entirely() {
    let mut parent = Mycelium::from_origin(String::from("parent"), 0);
    let bare = Mycelium { attributes: vec![], mycelia: vec![] };
    parent.add(bare).unwrap();
    parent.mycelia.push(Hypha::Reference(String::from("ghost")));
    parent.prune().unwrap();
    let children = parent.get_mycelia();
    assert_eq!(children.len(), 1);
    assert!(matches!(&children[0], Hypha::Reference(p) if p == "ghost"));
}

#[test]
fn prune_twice_is_prune_once() {
    let mut parent = Mycelium::from_origin(String::from("parent"), 0);
    parent.add(Mycelium::from_origin(String::from("A"), 1)).unwrap();
    parent.add(Mycelium::from_origin(String::from("B"), 2)).unwrap();
    parent.add(Mycelium::from_origin(String::from("A"), 3)).unwrap();
    parent.add(Mycelium { attributes: vec![], mycelia: vec![] }).unwrap();
    parent.prune().unwrap();
    let once = parent.get_hash();
    let shape_once: Vec<bool> =
        parent.get_mycelia().iter().map(|h| matches!(h, Hypha::Owned(_))).collect();
    parent.prune().unwrap();
    assert_eq!(parent.get_hash(), once);
    let shape_twice: Vec<bool> =
        parent.get_mycelia().iter().map(|h| matches!(h, Hypha::Owned(_))).collect();
    assert_eq!(shape_once, shape_twice);
}

#[test]
fn prune_changes_hash_of_deduplicated_tree() {
    let mut parent = Mycelium::from_origin(String::from("parent"), 0);
    parent.add(Mycelium::from_origin(String::from("A"), 1)).unwrap();
    parent.add(Mycelium::from_origin(String::from("A"), 3)).unwrap();
    let before = parent.get_hash();
    parent.prune().unwrap();
    assert_ne!(parent.get_hash(), before);
}

#[test]
fn attribute_hash_of_empty_identity_is_sha256_of_nothing() {
    let attr = Attribute::OriginSpore(String::new());
    assert_eq!(
        attr.get_hash(),
        "e3b0c44298fc1c149afbf4c8996fb92427ae41e4649b934ca495991b7852b855"
    );
}

#[test]
fn attribute_hashes_follow_payload_encodings() {
    let expected_print = hex::encode(sha2::Sha256::digest(b"alpha"));
    assert_eq!(Attribute::OriginSpore(String::from("alpha")).get_hash(), expected_print);
    let expected_moment = hex::encode(sha2::Sha256::digest(b"42"));
    assert_eq!(Attribute::OriginMoment(42).get_hash(), expected_moment);
    assert_eq!(Attribute::LastUpdate(42).get_hash(), expected_moment);
    assert_eq!(Attribute::OriginSignature(vec![1, 2, 3]).get_hash(), "");
}

#[test]
fn node_hash_is_deterministic_and_content_addressed() {
    let a1 = Mycelium::from_origin(String::from("alpha"), 7);
    let a2 = Mycelium::from_origin(String::from("alpha"), 7);
    assert_eq!(a1.get_hash(), a2.get_hash());
    let b = Mycelium::from_origin(String::from("alpha"), 8);
    assert_ne!(a1.get_hash(), b.get_hash());
    let mut with_child = Mycelium::from_origin(String::from("alpha"), 7);
    with_child.mycelia.push(Hypha::Reference(String::from("kid")));
    assert_ne!(with_child.get_hash(), a1.get_hash());
}

#[test]
fn verification_only_capability_suffices() {
    let spore = EchoSpore::named("signer");
    let mut node = Mycelium::from_origin(String::from("signer"), 1);
    node.sign(&spore).unwrap();
    let resolved = EchoSpore::resolve(&String::from("signer")).unwrap();
    assert!(resolved.refuse_sign);
    node.verify(&resolved).unwrap();
}

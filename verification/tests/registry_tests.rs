use semverx_registry::registry::{
    AccessLevel, AccessTier, PackageMetadata, RegistryError, RegistryNode, RegistryServer,
};
use semverx_registry::version::{SemverX, VersionState};

fn stable_version() -> SemverX {
    SemverX {
        major: 1,
        major_state: VersionState::Stable,
        minor: 0,
        minor_state: VersionState::Stable,
        patch: 0,
        patch_state: VersionState::Stable,
    }
}

fn sample_metadata(name: &str) -> PackageMetadata {
    PackageMetadata {
        name: name.to_string(),
        description: "Test package".to_string(),
        author: "OBINexus".to_string(),
        license: "MIT".to_string(),
        tarball_url: "https://r.obinexus.org/tarballs/package-a-1.0.0.tar.gz".to_string(),
        install_script: None,
    }
}

fn node(id: &str) -> RegistryNode {
    RegistryNode::new(
        id.to_string(),
        stable_version(),
        sample_metadata(id),
        AccessTier::Live,
        AccessLevel::Public,
    )
}

#[test]
fn test_avl_insertion() {
    let mut server = RegistryServer::new();

    let node1 = RegistryNode::new(
        "package-a".to_string(),
        SemverX {
            major: 1,
            major_state: VersionState::Stable,
            minor: 0,
            minor_state: VersionState::Stable,
            patch: 0,
            patch_state: VersionState::Stable,
        },
        PackageMetadata {
            name: "Package A".to_string(),
            description: "Test package".to_string(),
            author: "OBINexus".to_string(),
            license: "MIT".to_string(),
            tarball_url: "https://r.obinexus.org/tarballs/package-a-1.0.0.tar.gz".to_string(),
            install_script: None,
        },
        AccessTier::Live,
        AccessLevel::Public,
    );

    let _ = server.insert(node1);

    assert!(server.search("package-a").is_some());
    assert!(server.search("nonexistent").is_none());
}

#[test]
fn test_semverx_comparison() {
    let v1 = SemverX {
        major: 1,
        major_state: VersionState::Stable,
        minor: 0,
        minor_state: VersionState::Stable,
        patch: 0,
        patch_state: VersionState::Stable,
    };

    let v2 = v1.clone();
    assert_eq!(v1, v2);
}

#[test]
fn test_duplicate_key_rejected() {
    let mut server = RegistryServer::new();
    assert!(server.insert(node("pkg")).is_ok());
    assert_eq!(server.insert(node("pkg")), Err(RegistryError::DuplicateKey));
    // the first published record stays
    assert!(server.search("pkg").is_some());
}

#[test]
fn test_many_inserts_all_found() {
    let mut server = RegistryServer::new();
    let ids = ["delta", "alpha", "golf", "bravo", "echo", "charlie", "foxtrot"];
    for id in ids.iter() {
        assert!(server.insert(node(id)).is_ok());
    }
    for id in ids.iter() {
        let found = server.search(id).expect("inserted key must be found");
        assert_eq!(found.package_id, id.to_string());
    }
    assert!(server.search("hotel").is_none());
    assert!(server.search("").is_none());
}

#[test]
fn test_fresh_record_shape() {
    let n = node("pkg");
    assert_eq!(n.height, 1);
    assert_eq!(n.update_count, 0);
    assert!(n.dependencies.is_empty());
    assert!(n.dependents.is_empty());
    assert!(n.observers.is_empty());
}

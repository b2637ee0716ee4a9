use redosaur_core::version;

#[test]
fn version_is_set() {
    assert!(!version().is_empty());
}

#[test]
fn version_is_the_release_number() {
    assert_eq!(version(), "0.1.0");
}

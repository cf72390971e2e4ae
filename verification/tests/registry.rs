use virtual_dom::applier::ApplyError;
use virtual_dom::registry::Registry;

#[test]
fn a_registry_keeps_one_handle_per_kind() {
    let mut registry: Registry<u32> = Registry::new();
    assert_eq!(registry.len(), 0);
    assert!(!registry.holds("click"));
    assert_eq!(registry.hold("click", 10), Ok(()));
    assert_eq!(registry.hold("input", 11), Ok(()));
    assert_eq!(registry.hold("click", 12), Err(12));
    assert_eq!(registry.len(), 2);
    assert!(registry.holds("click"));
}

#[test]
fn a_handle_comes_out_once() {
    let mut registry: Registry<u32> = Registry::new();
    assert_eq!(registry.hold("click", 10), Ok(()));
    assert_eq!(registry.release("click"), Some(10));
    assert_eq!(registry.release("click"), None);
    assert_eq!(registry.len(), 0);
    assert_eq!(registry.hold("click", 13), Ok(()));
    assert_eq!(registry.release("click"), Some(13));
}

#[test]
fn the_first_kind_is_the_least() {
    let mut registry: Registry<u32> = Registry::new();
    assert_eq!(registry.first_kind(), None);
    assert_eq!(registry.hold("keyup", 1), Ok(()));
    assert_eq!(registry.hold("click", 2), Ok(()));
    assert_eq!(registry.hold("input", 3), Ok(()));
    assert_eq!(registry.first_kind(), Some(&"click".to_string()));
    assert_eq!(registry.release("click"), Some(2));
    assert_eq!(registry.first_kind(), Some(&"input".to_string()));
}

#[test]
fn a_kind_is_free_until_a_handle_is_kept_for_it() {
    let mut registry: Registry<u32> = Registry::new();
    assert_eq!(registry.free_for("click"), Ok(()));
    assert_eq!(registry.hold("click", 1), Ok(()));
    assert_eq!(registry.free_for("click"), Err(ApplyError::AlreadyAttached));
    assert_eq!(registry.free_for("input"), Ok(()));
    assert_eq!(registry.release("click"), Some(1));
    assert_eq!(registry.free_for("click"), Ok(()));
}

use virtual_dom::keyed::{Content, Keyed};
use virtual_dom::patch::Patch;

fn attributes(entries: &[(&str, &str)]) -> Keyed<String> {
    let mut map = Keyed::new();
    for (key, value) in entries {
        map.set(key.to_string(), value.to_string());
    }
    map
}

fn keys_of(map: &Keyed<String>) -> Vec<String> {
    let mut keys = Vec::new();
    for i in 0..map.len() {
        keys.push(map.key_at(i).clone());
    }
    keys
}

#[test]
fn a_new_collection_is_empty() {
    let map: Keyed<String> = Keyed::new();
    assert_eq!(map.len(), 0);
    assert_eq!(map.get("id"), None);
    assert!(!map.contains_key("id"));
}

#[test]
fn set_puts_and_replaces() {
    let mut map = attributes(&[("id", "x")]);
    assert_eq!(map.get("id"), Some(&"x".to_string()));
    map.set("id".to_string(), "y".to_string());
    assert_eq!(map.len(), 1);
    assert_eq!(map.get("id"), Some(&"y".to_string()));
}

#[test]
fn keys_are_kept_in_dictionary_order() {
    let map = attributes(&[("title", "t"), ("href", "h"), ("id", "i"), ("alt", "a")]);
    assert_eq!(keys_of(&map), vec!["alt", "href", "id", "title"]);
    assert_eq!(map.value_at(0), "a");
    assert_eq!(map.value_at(3), "t");
}

#[test]
fn the_order_of_building_does_not_matter() {
    let one = attributes(&[("a", "1"), ("b", "2"), ("c", "3")]);
    let other = attributes(&[("c", "3"), ("a", "1"), ("b", "2")]);
    assert_eq!(one, other);
    assert!(one.same(&other));
}

#[test]
fn remove_takes_the_entry_away() {
    let mut map = attributes(&[("a", "1"), ("b", "2")]);
    assert_eq!(map.remove("a"), Some("1".to_string()));
    assert_eq!(map.remove("a"), None);
    assert_eq!(map.len(), 1);
    assert!(map.contains_key("b"));
}

#[test]
fn same_tells_values_apart() {
    let one = attributes(&[("a", "1")]);
    assert!(!one.same(&attributes(&[("a", "2")])));
    assert!(!one.same(&attributes(&[("b", "1")])));
    assert!(!one.same(&attributes(&[("a", "1"), ("b", "2")])));
    assert!(one.same(&one.duplicate()));
}

#[test]
fn diff_of_equal_collections_is_empty() {
    let one = attributes(&[("a", "1"), ("b", "2")]);
    assert_eq!(Keyed::diff(&one, &one.duplicate()), vec![]);
}

#[test]
fn diff_adds_replaces_and_removes_by_key() {
    let prev = attributes(&[("gone", "1"), ("kept", "2"), ("changed", "3")]);
    let next = attributes(&[("kept", "2"), ("changed", "4"), ("new", "5")]);
    assert_eq!(
        Keyed::diff(&prev, &next),
        vec![
            Patch::Replace("changed".to_string(), "4".to_string()),
            Patch::Remove("gone".to_string()),
            Patch::Add("new".to_string(), "5".to_string()),
        ]
    );
}

#[test]
fn diff_from_nothing_adds_all_and_to_nothing_removes_all() {
    let empty: Keyed<String> = Keyed::new();
    let full = attributes(&[("b", "2"), ("a", "1")]);
    assert_eq!(
        Keyed::diff(&empty, &full),
        vec![
            Patch::Add("a".to_string(), "1".to_string()),
            Patch::Add("b".to_string(), "2".to_string()),
        ]
    );
    assert_eq!(
        Keyed::diff(&full, &empty),
        vec![Patch::Remove("a".to_string()), Patch::Remove("b".to_string())]
    );
}

#[test]
fn diff_of_classes_never_replaces() {
    let mut prev: Keyed<()> = Keyed::new();
    prev.set("big".to_string(), ());
    prev.set("red".to_string(), ());
    let mut next: Keyed<()> = Keyed::new();
    next.set("red".to_string(), ());
    next.set("wide".to_string(), ());
    assert_eq!(
        Keyed::diff(&prev, &next),
        vec![Patch::Remove("big".to_string()), Patch::Add("wide".to_string(), ())]
    );
}

#[test]
fn patches_of_a_diff_turn_the_old_collection_into_the_new() {
    let prev = attributes(&[("gone", "1"), ("kept", "2"), ("changed", "3")]);
    let next = attributes(&[("kept", "2"), ("changed", "4"), ("new", "5")]);
    let mut map = prev.duplicate();
    for patch in Keyed::diff(&prev, &next).iter() {
        map.patch(patch);
    }
    assert_eq!(map, next);
}

#[test]
fn patch_puts_and_takes() {
    let mut map = attributes(&[("a", "1")]);
    map.patch(&Patch::Add("b".to_string(), "2".to_string()));
    map.patch(&Patch::Replace("a".to_string(), "3".to_string()));
    assert_eq!(map, attributes(&[("a", "3"), ("b", "2")]));
    map.patch(&Patch::Remove("a".to_string()));
    map.patch(&Patch::Remove("zz".to_string()));
    assert_eq!(map, attributes(&[("b", "2")]));
}

#[test]
fn a_patch_names_its_position() {
    assert_eq!(Patch::<String, u64>::Add("a".to_string(), 1).id(), "a");
    assert_eq!(Patch::<String, u64>::Replace("b".to_string(), 1).id(), "b");
    assert_eq!(Patch::<String, u64>::Remove("c".to_string()).id(), "c");
    let patch = Patch::Replace("k".to_string(), "v".to_string());
    assert_eq!(patch.duplicate(), patch);
}

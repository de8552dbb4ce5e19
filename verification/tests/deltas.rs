use vmf_diff::delta::{field_delta, FieldDelta};
use vmf_diff::entity::Entity;

fn entity(id: u64, fields: &[(&str, &str)]) -> Entity {
    let mut entity = Entity::new(id);
    for (key, value) in fields {
        entity.set(key.to_string(), value.to_string());
    }
    entity
}

fn apply(old: &Entity, delta: &FieldDelta) -> Vec<(String, String)> {
    let mut fields: Vec<(String, String)> = old
        .key_values()
        .iter()
        .filter(|(key, _)| !delta.removed.contains(&key.as_str()))
        .cloned()
        .collect();
    for (key, value) in delta.added.iter().chain(delta.modified.iter()) {
        match fields.iter_mut().find(|(k, _)| k == key) {
            Some(field) => field.1 = value.to_string(),
            None => fields.push((key.to_string(), value.to_string())),
        }
    }
    fields.sort();
    fields
}

fn sorted_fields(entity: &Entity) -> Vec<(String, String)> {
    let mut fields = entity.key_values().clone();
    fields.sort();
    fields
}

#[test]
fn delta_of_a_faster_door_with_a_lock() {
    let old = entity(3, &[("classname", "door"), ("origin", "1 2 3"), ("speed", "100")]);
    let new =
        entity(3, &[("classname", "door"), ("origin", "1 2 3"), ("speed", "200"), ("locked", "1")]);
    let delta = field_delta(&old, &new);
    assert_eq!(delta.added, vec![("locked", "1")]);
    assert!(delta.removed.is_empty());
    assert_eq!(delta.modified, vec![("speed", "200")]);
    assert!(!delta.is_empty());
}

#[test]
fn delta_lists_removed_and_modified_in_old_order_and_added_in_new_order() {
    let old = entity(1, &[("a", "1"), ("b", "2"), ("c", "3"), ("d", "4"), ("e", "5")]);
    let new = entity(1, &[("z", "26"), ("e", "50"), ("c", "3"), ("y", "25"), ("a", "10")]);
    let delta = field_delta(&old, &new);
    assert_eq!(delta.removed, vec!["b", "d"]);
    assert_eq!(delta.modified, vec![("a", "10"), ("e", "50")]);
    assert_eq!(delta.added, vec![("z", "26"), ("y", "25")]);
}

#[test]
fn delta_of_equal_mappings_is_empty() {
    let old = entity(7, &[("classname", "light"), ("origin", "0 0 0")]);
    let new = entity(7, &[("classname", "light"), ("origin", "0 0 0")]);
    let delta = field_delta(&old, &new);
    assert!(delta.is_empty());
    assert!(delta.added.is_empty() && delta.removed.is_empty() && delta.modified.is_empty());
}

#[test]
fn delta_ignores_the_order_of_the_fields() {
    let old = entity(7, &[("classname", "light"), ("origin", "0 0 0"), ("style", "1")]);
    let new = entity(7, &[("style", "1"), ("classname", "light"), ("origin", "0 0 0")]);
    assert!(field_delta(&old, &new).is_empty());
    assert!(field_delta(&new, &old).is_empty());
}

#[test]
fn delta_ignores_identifier_and_connections() {
    let mut old = entity(7, &[("classname", "light")]);
    old.add_connection("OnTrigger".to_string(), "a\u{1f}b".to_string());
    let new = entity(8, &[("classname", "light")]);
    assert!(field_delta(&old, &new).is_empty());
}

#[test]
fn delta_between_empty_and_full() {
    let empty = Entity::new(1);
    let full = entity(1, &[("a", "1"), ("b", "2")]);
    let grow = field_delta(&empty, &full);
    assert_eq!(grow.added, vec![("a", "1"), ("b", "2")]);
    assert!(grow.removed.is_empty() && grow.modified.is_empty());
    let shrink = field_delta(&full, &empty);
    assert_eq!(shrink.removed, vec!["a", "b"]);
    assert!(shrink.added.is_empty() && shrink.modified.is_empty());
}

#[test]
fn delta_treats_an_emptied_value_as_modified() {
    let old = entity(1, &[("targetname", "door1")]);
    let new = entity(1, &[("targetname", "")]);
    let delta = field_delta(&old, &new);
    assert_eq!(delta.modified, vec![("targetname", "")]);
    assert!(delta.added.is_empty() && delta.removed.is_empty());
}

#[test]
fn delta_applied_to_old_gives_new() {
    let old = entity(1, &[("a", "1"), ("b", "2"), ("c", "3"), ("d", "4"), ("e", "5")]);
    let new = entity(1, &[("z", "26"), ("e", "50"), ("c", "3"), ("y", "25"), ("a", "10")]);
    assert_eq!(apply(&old, &field_delta(&old, &new)), sorted_fields(&new));
    assert_eq!(apply(&new, &field_delta(&new, &old)), sorted_fields(&old));
    assert_eq!(apply(&old, &field_delta(&old, &old)), sorted_fields(&old));
}

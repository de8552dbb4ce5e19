use vmf_diff::report::diff_documents;
use vmf_diff::vmf::document_from_vmf;
use vmf_forge::{Entity, VmfFile};

fn file_of(entities: Vec<Entity>) -> VmfFile {
    let mut file = VmfFile::default();
    for entity in entities {
        file.entities.vec.push(entity);
    }
    file
}

#[test]
fn document_from_vmf_copies_identifier_fields_and_connections() {
    let mut relay = Entity::new("logic_relay", 42);
    relay.set("origin".to_string(), "8 8 8".to_string());
    relay.connections =
        Some(vec![("OnTrigger".to_string(), "door\u{1f}Open\u{1f}\u{1f}0\u{1f}-1".to_string())]);
    let lamp = Entity::new("light", 7);
    let document = document_from_vmf(&file_of(vec![relay, lamp]));
    assert_eq!(document.entities.len(), 2);
    let first = &document.entities[0];
    assert_eq!(first.id(), 42);
    assert_eq!(
        first.key_values(),
        &vec![
            ("classname".to_string(), "logic_relay".to_string()),
            ("id".to_string(), "42".to_string()),
            ("origin".to_string(), "8 8 8".to_string()),
        ]
    );
    assert_eq!(
        first.connections(),
        Some(&vec![("OnTrigger".to_string(), "door\u{1f}Open\u{1f}\u{1f}0\u{1f}-1".to_string())])
    );
    let second = &document.entities[1];
    assert_eq!(second.id(), 7);
    assert_eq!(second.get("classname"), Some(&"light".to_string()));
    assert_eq!(second.connections(), None);
}

#[test]
fn document_from_vmf_of_an_empty_file_is_empty() {
    assert!(document_from_vmf(&VmfFile::default()).entities.is_empty());
}

#[test]
fn document_from_vmf_takes_the_identifier_that_the_parser_reports() {
    let mut broken = Entity::new("light", 1);
    broken.set("id".to_string(), "not a number".to_string());
    let mut absent = Entity::new("light", 1);
    absent.remove_key("id");
    let document = document_from_vmf(&file_of(vec![broken, absent, Entity::new("light", 900)]));
    let ids: Vec<u64> = document.entities.iter().map(|e| e.id()).collect();
    assert_eq!(ids, vec![0, 0, 900]);
}

#[test]
fn document_from_vmf_leaves_hidden_entities_out() {
    let mut file = file_of(vec![Entity::new("light", 1)]);
    file.hiddens.vec.push(Entity::new("light", 2));
    let document = document_from_vmf(&file);
    let ids: Vec<u64> = document.entities.iter().map(|e| e.id()).collect();
    assert_eq!(ids, vec![1]);
}

#[test]
fn parsed_text_is_compared_entity_by_entity() {
    let old_text = "entity\n{\n\t\"id\" \"5\"\n\t\"classname\" \"light\"\n\t\"origin\" \"0 0 0\"\n}\nentity\n{\n\t\"id\" \"6\"\n\t\"classname\" \"door\"\n\t\"origin\" \"1 2 3\"\n\t\"speed\" \"100\"\n}\n";
    let new_text = "entity\n{\n\t\"id\" \"6\"\n\t\"classname\" \"door\"\n\t\"origin\" \"1 2 3\"\n\t\"speed\" \"200\"\n}\nentity\n{\n\t\"id\" \"9\"\n\t\"classname\" \"trigger\"\n\tconnections\n\t{\n\t\t\"OnTrigger\" \"door\u{1f}Open\u{1f}\u{1f}0\u{1f}-1\"\n\t}\n}\n";
    let old = document_from_vmf(&VmfFile::parse(old_text).unwrap());
    let new = document_from_vmf(&VmfFile::parse(new_text).unwrap());
    let report = diff_documents(old, new).unwrap();
    assert_eq!(
        report.output,
        "add:\n{\n    \"id\" \"9\"\n    \"classname\" \"trigger\"\n    \"OnTrigger\" \"door,Open,,0,-1\"\n}\nfilter:\n{\n    \"classname\" \"light\"\n    \"origin\" \"0 0 0\"\n}\nmodify:\n{\n    match:\n    {\n        \"classname\" \"door\"\n        \"origin\" \"1 2 3\"\n    }\n    replace:\n    {\n        \"speed\" \"200\"\n    }\n}\n"
    );
    assert!(report.skipped.is_empty());
}

use vmf_diff::diff::{diff, DiffOutcome};
use vmf_diff::emit::MissingField;
use vmf_diff::entity::{Document, Entity};
use vmf_diff::index::{DuplicateId, EntityIndex};
use vmf_diff::report::{diff_documents, render_outcomes, DiffError, DiffReport};

fn entity(id: u64, fields: &[(&str, &str)]) -> Entity {
    let mut entity = Entity::new(id);
    for (key, value) in fields {
        entity.set(key.to_string(), value.to_string());
    }
    entity
}

fn located(id: u64, classname: &str, origin: &str) -> Entity {
    entity(id, &[("classname", classname), ("origin", origin)])
}

fn index_of(entities: Vec<Entity>) -> EntityIndex {
    match EntityIndex::new(Document::new(entities)) {
        Ok(index) => index,
        Err(duplicate) => panic!("unexpected duplicate {:?}", duplicate),
    }
}

fn run(old: Vec<Entity>, new: Vec<Entity>) -> DiffReport {
    match diff_documents(Document::new(old), Document::new(new)) {
        Ok(report) => report,
        Err(error) => panic!("unexpected error {:?}", error),
    }
}

fn kinds(outcomes: &[DiffOutcome]) -> Vec<(char, u64)> {
    outcomes
        .iter()
        .map(|outcome| match outcome {
            DiffOutcome::Added(entity) => ('+', entity.id()),
            DiffOutcome::Removed(entity) => ('-', entity.id()),
            DiffOutcome::Modified { entity, .. } => ('~', entity.id()),
        })
        .collect()
}

#[test]
fn removed_entity_gives_one_filter_block() {
    let report = run(vec![located(5, "light", "0 0 0")], vec![]);
    assert!(report.is_complete());
    assert_eq!(
        report.output,
        "filter:\n{\n    \"classname\" \"light\"\n    \"origin\" \"0 0 0\"\n}\n"
    );
    assert!(report.skipped.is_empty());
}

#[test]
fn added_entity_gives_one_add_block() {
    let report = run(vec![], vec![entity(9, &[("classname", "trigger"), ("brightness", "5")])]);
    assert_eq!(
        report.output,
        "add:\n{\n    \"classname\" \"trigger\"\n    \"brightness\" \"5\"\n}\n"
    );
    assert!(report.skipped.is_empty());
}

#[test]
fn changed_entity_gives_one_modify_block() {
    let old = entity(3, &[("classname", "door"), ("origin", "1 2 3"), ("speed", "100")]);
    let new =
        entity(3, &[("classname", "door"), ("origin", "1 2 3"), ("speed", "200"), ("locked", "1")]);
    let report = run(vec![old], vec![new]);
    assert_eq!(
        report.output,
        "modify:\n{\n    match:\n    {\n        \"classname\" \"door\"\n        \"origin\" \"1 2 3\"\n    }\n    replace:\n    {\n        \"speed\" \"200\"\n    }\n    insert:\n    {\n        \"locked\" \"1\"\n    }\n}\n"
    );
    assert!(!report.output.contains("delete:"));
    assert!(report.skipped.is_empty());
}

#[test]
fn unchanged_entity_gives_no_record() {
    let report = run(vec![located(7, "light", "0 0 0")], vec![located(7, "light", "0 0 0")]);
    assert_eq!(report.output, "");
    assert!(report.skipped.is_empty());
}

#[test]
fn reordered_fields_give_no_record() {
    let old = entity(7, &[("classname", "light"), ("origin", "0 0 0"), ("style", "1")]);
    let new = entity(7, &[("origin", "0 0 0"), ("style", "1"), ("classname", "light")]);
    let report = run(vec![old], vec![new]);
    assert_eq!(report.output, "");
    assert!(report.skipped.is_empty());
}

#[test]
fn removed_entity_without_origin_is_noted_and_passed_over() {
    let old = vec![
        located(5, "light", "0 0 0"),
        entity(6, &[("classname", "func_detail")]),
        located(8, "prop_static", "4 4 4"),
    ];
    let report = run(old, vec![]);
    assert!(!report.is_complete());
    assert_eq!(report.skipped, vec![MissingField { id: 6, key: "origin".to_string() }]);
    assert_eq!(
        report.output,
        "filter:\n{\n    \"classname\" \"light\"\n    \"origin\" \"0 0 0\"\n}\nfilter:\n{\n    \"classname\" \"prop_static\"\n    \"origin\" \"4 4 4\"\n}\n"
    );
}

#[test]
fn changed_entity_without_classname_is_noted_and_passed_over() {
    let old = vec![entity(2, &[("origin", "0 0 0"), ("speed", "1")]), located(3, "a", "1 1 1")];
    let new = vec![
        entity(2, &[("origin", "0 0 0"), ("speed", "2")]),
        entity(3, &[("classname", "b"), ("origin", "1 1 1")]),
    ];
    let report = run(old, new);
    assert_eq!(report.skipped, vec![MissingField { id: 2, key: "classname".to_string() }]);
    assert_eq!(
        report.output,
        "modify:\n{\n    match:\n    {\n        \"classname\" \"a\"\n        \"origin\" \"1 1 1\"\n    }\n    replace:\n    {\n        \"classname\" \"b\"\n    }\n}\n"
    );
}

#[test]
fn modify_record_matches_on_the_old_values() {
    let report = run(vec![located(3, "door", "1 2 3")], vec![located(3, "door", "9 9 9")]);
    assert_eq!(
        report.output,
        "modify:\n{\n    match:\n    {\n        \"classname\" \"door\"\n        \"origin\" \"1 2 3\"\n    }\n    replace:\n    {\n        \"origin\" \"9 9 9\"\n    }\n}\n"
    );
}

#[test]
fn removed_field_is_deleted_with_its_old_value() {
    let old = entity(3, &[("classname", "door"), ("origin", "1 2 3"), ("speed", "100")]);
    let report = run(vec![old], vec![located(3, "door", "1 2 3")]);
    assert_eq!(
        report.output,
        "modify:\n{\n    match:\n    {\n        \"classname\" \"door\"\n        \"origin\" \"1 2 3\"\n    }\n    delete:\n    {\n        \"speed\" \"100\"\n    }\n}\n"
    );
}

#[test]
fn records_come_added_then_removed_then_modified() {
    let old = vec![located(1, "keep", "0 0 0"), located(2, "gone", "2 2 2"), located(3, "move", "3 3 3")];
    let new = vec![located(3, "move", "3 3 4"), located(4, "fresh", "4 4 4"), located(1, "keep", "0 0 0")];
    let report = run(old, new);
    let add = report.output.find("add:").unwrap();
    let filter = report.output.find("filter:").unwrap();
    let modify = report.output.find("modify:").unwrap();
    assert!(add < filter && filter < modify);
    assert_eq!(
        report.output,
        "add:\n{\n    \"classname\" \"fresh\"\n    \"origin\" \"4 4 4\"\n}\nfilter:\n{\n    \"classname\" \"gone\"\n    \"origin\" \"2 2 2\"\n}\nmodify:\n{\n    match:\n    {\n        \"classname\" \"move\"\n        \"origin\" \"3 3 3\"\n    }\n    replace:\n    {\n        \"origin\" \"3 3 4\"\n    }\n}\n"
    );
}

#[test]
fn each_group_goes_by_ascending_identifier() {
    let old = index_of(vec![
        located(50, "r", "0 0 0"),
        located(7, "m", "0 0 0"),
        located(20, "r", "0 0 0"),
        located(3, "m", "0 0 0"),
    ]);
    let new = index_of(vec![
        located(90, "a", "0 0 0"),
        located(3, "m", "1 0 0"),
        located(11, "a", "0 0 0"),
        located(7, "m", "1 0 0"),
    ]);
    let outcomes = diff(&old, &new);
    assert_eq!(
        kinds(&outcomes),
        vec![('+', 11), ('+', 90), ('-', 20), ('-', 50), ('~', 3), ('~', 7)]
    );
}

#[test]
fn output_does_not_depend_on_document_order() {
    let old_a = vec![located(1, "a", "0 0 0"), located(2, "b", "0 0 0"), located(3, "c", "0 0 0")];
    let old_b = vec![located(3, "c", "0 0 0"), located(1, "a", "0 0 0"), located(2, "b", "0 0 0")];
    let new_a = vec![located(4, "d", "0 0 0"), located(5, "e", "0 0 0"), located(3, "c", "1 1 1")];
    let new_b = vec![located(5, "e", "0 0 0"), located(3, "c", "1 1 1"), located(4, "d", "0 0 0")];
    assert_eq!(run(old_a, new_a), run(old_b, new_b));
}

#[test]
fn diff_of_a_document_with_itself_is_empty() {
    let document = || {
        vec![
            located(5, "light", "0 0 0"),
            entity(6, &[("classname", "func_detail")]),
            entity(1, &[("origin", "1 1 1"), ("speed", "3")]),
        ]
    };
    let old = index_of(document());
    let new = index_of(document());
    assert!(diff(&old, &new).is_empty());
    assert!(diff(&old, &old).is_empty());
    assert_eq!(run(document(), document()), DiffReport { output: String::new(), skipped: vec![] });
}

#[test]
fn diff_of_two_empty_documents_is_empty() {
    assert_eq!(run(vec![], vec![]), DiffReport { output: String::new(), skipped: vec![] });
}

#[test]
fn added_removed_and_common_split_the_identifiers() {
    let old_ids: Vec<u64> = vec![1, 2, 3, 5, 8, 13];
    let new_ids: Vec<u64> = vec![2, 3, 4, 8, 16];
    let old = index_of(old_ids.iter().map(|id| located(*id, "x", "0 0 0")).collect());
    let new = index_of(new_ids.iter().map(|id| located(*id, "x", "1 1 1")).collect());
    let outcomes = diff(&old, &new);
    let added: Vec<u64> = kinds(&outcomes).iter().filter(|k| k.0 == '+').map(|k| k.1).collect();
    let removed: Vec<u64> = kinds(&outcomes).iter().filter(|k| k.0 == '-').map(|k| k.1).collect();
    let common: Vec<u64> = kinds(&outcomes).iter().filter(|k| k.0 == '~').map(|k| k.1).collect();
    assert_eq!(added, vec![4, 16]);
    assert_eq!(removed, vec![1, 5, 13]);
    assert_eq!(common, vec![2, 3, 8]);
    assert!(added.iter().all(|id| !removed.contains(id)));
    let mut all: Vec<u64> = added.iter().chain(removed.iter()).chain(common.iter()).cloned().collect();
    all.sort();
    let mut union: Vec<u64> = old_ids.iter().chain(new_ids.iter()).cloned().collect();
    union.sort();
    union.dedup();
    assert_eq!(all, union);
}

#[test]
fn modified_outcome_carries_the_old_entity_and_the_delta() {
    let old = index_of(vec![entity(3, &[("classname", "door"), ("speed", "100"), ("wait", "4")])]);
    let new = index_of(vec![entity(3, &[("classname", "door"), ("speed", "200"), ("locked", "1")])]);
    let outcomes = diff(&old, &new);
    assert_eq!(outcomes.len(), 1);
    match &outcomes[0] {
        DiffOutcome::Modified { entity, added_fields, removed_fields, modified_fields } => {
            assert_eq!(entity.get("speed"), Some(&"100".to_string()));
            assert_eq!(added_fields, &vec![("locked", "1")]);
            assert_eq!(removed_fields, &vec!["wait"]);
            assert_eq!(modified_fields, &vec![("speed", "200")]);
        },
        _ => panic!("expected a modified outcome"),
    }
}

#[test]
fn added_entity_is_taken_from_the_new_document() {
    let old = index_of(vec![]);
    let new = index_of(vec![located(4, "fresh", "4 4 4")]);
    let outcomes = diff(&old, &new);
    assert_eq!(kinds(&outcomes), vec![('+', 4)]);
    assert_eq!(render_outcomes(&outcomes).output, "add:\n{\n    \"classname\" \"fresh\"\n    \"origin\" \"4 4 4\"\n}\n");
}

#[test]
fn added_entity_with_connections_is_written_with_commas() {
    let mut relay = located(4, "logic_relay", "0 0 0");
    relay.add_connection("OnTrigger".to_string(), "door\u{1f}Open\u{1f}\u{1f}0\u{1f}-1".to_string());
    let report = run(vec![], vec![relay]);
    assert_eq!(
        report.output,
        "add:\n{\n    \"classname\" \"logic_relay\"\n    \"origin\" \"0 0 0\"\n    \"OnTrigger\" \"door,Open,,0,-1\"\n}\n"
    );
}

#[test]
fn connections_of_a_common_entity_are_not_compared() {
    let mut old = located(4, "logic_relay", "0 0 0");
    old.add_connection("OnTrigger".to_string(), "door\u{1f}Open".to_string());
    let mut new = located(4, "logic_relay", "0 0 0");
    new.add_connection("OnTrigger".to_string(), "door\u{1f}Close".to_string());
    assert_eq!(run(vec![old], vec![new]).output, "");
}

#[test]
fn duplicate_identifier_in_the_old_document_is_an_error() {
    let old = vec![located(1, "a", "0 0 0"), located(1, "b", "0 0 0")];
    let result = diff_documents(Document::new(old), Document::new(vec![]));
    assert_eq!(result, Err(DiffError::DuplicateInOld(DuplicateId { id: 1, position: 1 })));
}

#[test]
fn duplicate_identifier_in_the_new_document_is_an_error() {
    let new = vec![located(4, "a", "0 0 0"), located(2, "b", "0 0 0"), located(4, "c", "0 0 0")];
    let result = diff_documents(Document::new(vec![located(4, "a", "0 0 0")]), Document::new(new));
    assert_eq!(result, Err(DiffError::DuplicateInNew(DuplicateId { id: 4, position: 2 })));
}

#[test]
fn duplicate_in_the_old_document_is_reported_before_one_in_the_new() {
    let old = vec![located(7, "a", "0 0 0"), located(7, "b", "0 0 0")];
    let new = vec![located(8, "a", "0 0 0"), located(8, "b", "0 0 0")];
    let result = diff_documents(Document::new(old), Document::new(new));
    assert_eq!(result, Err(DiffError::DuplicateInOld(DuplicateId { id: 7, position: 1 })));
}

#[test]
fn render_outcomes_of_nothing_is_empty() {
    assert_eq!(render_outcomes(&vec![]), DiffReport { output: String::new(), skipped: vec![] });
}

#[test]
fn render_outcomes_keeps_the_order_of_the_outcomes() {
    let light = located(5, "light", "0 0 0");
    let bare = entity(6, &[("classname", "func_detail")]);
    let nameless = Entity::new(9);
    let outcomes = vec![
        DiffOutcome::Removed(&light),
        DiffOutcome::Removed(&nameless),
        DiffOutcome::Added(&bare),
        DiffOutcome::Removed(&bare),
    ];
    let report = render_outcomes(&outcomes);
    assert_eq!(
        report.output,
        "filter:\n{\n    \"classname\" \"light\"\n    \"origin\" \"0 0 0\"\n}\nadd:\n{\n    \"classname\" \"func_detail\"\n}\n"
    );
    assert_eq!(
        report.skipped,
        vec![
            MissingField { id: 9, key: "classname".to_string() },
            MissingField { id: 6, key: "origin".to_string() },
        ]
    );
}

use crate::delta::{str_pairs_view, strs_view, DeltaView};
use crate::diff::{DiffOutcome, OutcomeView};
use crate::entity::{has_key, pairs_view, value_of, Entity, EntityView, Fields, Text};
use crate::text::{
    lemma_rejoined_replaces_separators, push_line, quoted_line, rejoin_value, rejoined,
    FIELD_SEPARATOR,
};
use vstd::prelude::*;

verus! {

/// An entity lacks a field that its record needs.
#[derive(Debug, PartialEq, Eq)]
pub struct MissingField {
    /// The identifier of the entity.
    pub id: u64,
    /// The key that the entity lacks.
    pub key: String,
}

/// A missing field as the contracts see it.
pub struct MissingFieldView {
    pub id: u64,
    pub key: Text,
}

impl View for MissingField {
    type V = MissingFieldView;

    open spec fn view(&self) -> MissingFieldView {
        MissingFieldView { id: self.id, key: self.key@ }
    }
}

/// A record or the reason why there is none, as the contracts see it.
pub open spec fn record_view(record: Result<String, MissingField>) -> Result<
    Text,
    MissingFieldView,
> {
    match record {
        Ok(text) => Ok(text@),
        Err(missing) => Err(missing@),
    }
}

/// One line for each field, in order.
pub open spec fn lines(indent: Text, fields: Fields) -> Text
    decreases fields.len(),
{
    if fields.len() == 0 {
        Seq::empty()
    } else {
        lines(indent, fields.drop_last()) + quoted_line(
            indent,
            fields.last().0,
            fields.last().1,
        )
    }
}

/// The connection records with each packed value rejoined by commas.
pub open spec fn rejoined_values(connections: Fields) -> Fields {
    connections.map_values(|c: (Text, Text)| (c.0, rejoined(c.1)))
}

/// The lines that an entity's connections add to its record.
pub open spec fn connection_lines(indent: Text, connections: Option<Fields>) -> Text {
    match connections {
        Some(records) => lines(indent, rejoined_values(records)),
        None => Seq::empty(),
    }
}

/// The record that adds an entity: every field of its mapping, then every
/// connection.
pub open spec fn add_record(entity: EntityView) -> Text {
    "add:\n{\n"@ + lines("    "@, entity.fields) + connection_lines("    "@, entity.connections)
        + "}\n"@
}

/// The text holds no separator.
pub open spec fn separator_free(text: Text) -> bool {
    !text.contains(FIELD_SEPARATOR)
}

/// No key of the pairs holds a separator.
pub open spec fn keys_separator_free(fields: Fields) -> bool {
    forall|i: int| 0 <= i < fields.len() ==> separator_free(#[trigger] fields[i].0)
}

/// No value of the pairs holds a separator.
pub open spec fn values_separator_free(fields: Fields) -> bool {
    forall|i: int| 0 <= i < fields.len() ==> separator_free(#[trigger] fields[i].1)
}

proof fn lemma_concat_separator_free(first: Text, second: Text)
    requires
        separator_free(first),
        separator_free(second),
    ensures
        separator_free(first + second),
{
    let whole = first + second;
    if whole.contains(FIELD_SEPARATOR) {
        let i = choose|i: int| 0 <= i < whole.len() && whole[i] == FIELD_SEPARATOR;
        if i < first.len() {
            assert(first[i] == FIELD_SEPARATOR);
        } else {
            assert(second[i - first.len()] == FIELD_SEPARATOR);
        }
    }
}

proof fn lemma_lines_separator_free(fields: Fields)
    requires
        keys_separator_free(fields),
        values_separator_free(fields),
    ensures
        separator_free(lines("    "@, fields)),
    decreases fields.len(),
{
    if fields.len() > 0 {
        let shorter = fields.drop_last();
        assert forall|i: int| 0 <= i < shorter.len() implies separator_free(
            #[trigger] shorter[i].0,
        ) by {
            assert(shorter[i] == fields[i]);
        }
        assert forall|i: int| 0 <= i < shorter.len() implies separator_free(
            #[trigger] shorter[i].1,
        ) by {
            assert(shorter[i] == fields[i]);
        }
        lemma_lines_separator_free(shorter);
        reveal_strlit("    ");
        reveal_strlit("\"");
        reveal_strlit("\" \"");
        reveal_strlit("\"\n");
        let key = fields.last().0;
        let value = fields.last().1;
        assert(separator_free(key) && separator_free(value)) by {
            assert(fields.last() == fields[fields.len() - 1]);
        }
        lemma_concat_separator_free("    "@, "\""@);
        lemma_concat_separator_free("    "@ + "\""@, key);
        lemma_concat_separator_free("    "@ + "\""@ + key, "\" \""@);
        lemma_concat_separator_free("    "@ + "\""@ + key + "\" \""@, value);
        lemma_concat_separator_free("    "@ + "\""@ + key + "\" \""@ + value, "\"\n"@);
        lemma_concat_separator_free(lines("    "@, shorter), quoted_line("    "@, key, value));
    }
}

/// Where no key and no plain value of an entity holds a separator, its add
/// record holds none: every separator of a connection value has become a
/// comma.
pub proof fn lemma_add_record_has_no_separator(entity: EntityView)
    requires
        keys_separator_free(entity.fields),
        values_separator_free(entity.fields),
        entity.connections matches Some(records) ==> keys_separator_free(records),
    ensures
        separator_free(add_record(entity)),
{
    reveal_strlit("add:\n{\n");
    reveal_strlit("}\n");
    lemma_lines_separator_free(entity.fields);
    match entity.connections {
        Some(records) => {
            let shown = rejoined_values(records);
            assert forall|i: int| 0 <= i < shown.len() implies separator_free(
                #[trigger] shown[i].0,
            ) by {
                assert(shown[i].0 == records[i].0);
            }
            assert forall|i: int| 0 <= i < shown.len() implies separator_free(
                #[trigger] shown[i].1,
            ) by {
                lemma_rejoined_replaces_separators(records[i].1);
            }
            lemma_lines_separator_free(shown);
        },
        None => {},
    }
    lemma_concat_separator_free("add:\n{\n"@, lines("    "@, entity.fields));
    lemma_concat_separator_free(
        "add:\n{\n"@ + lines("    "@, entity.fields),
        connection_lines("    "@, entity.connections),
    );
    lemma_concat_separator_free(
        "add:\n{\n"@ + lines("    "@, entity.fields) + connection_lines(
            "    "@,
            entity.connections,
        ),
        "}\n"@,
    );
}

/// The first of `keys` that the mapping lacks.
pub open spec fn first_missing(fields: Fields, keys: Seq<Text>) -> Option<Text>
    decreases keys.len(),
{
    if keys.len() == 0 {
        None
    } else if !has_key(fields, keys[0]) {
        Some(keys[0])
    } else {
        first_missing(fields, keys.drop_first())
    }
}

/// The two fields by which a record names the entity it is about.
pub open spec fn locating_keys() -> Seq<Text> {
    seq!["classname"@, "origin"@]
}

/// The record that removes the entity with these fields.
pub open spec fn filter_record(fields: Fields) -> Text {
    "filter:\n{\n"@ + quoted_line("    "@, "classname"@, value_of(fields, "classname"@))
        + quoted_line("    "@, "origin"@, value_of(fields, "origin"@)) + "}\n"@
}

/// The record for a removed entity, or the locating field that it lacks.
pub open spec fn filter_outcome(entity: EntityView) -> Result<Text, MissingFieldView> {
    match first_missing(entity.fields, locating_keys()) {
        Some(key) => Err(MissingFieldView { id: entity.id, key }),
        None => Ok(filter_record(entity.fields)),
    }
}

/// The sub-block of a modify record that names the entity.
pub open spec fn match_block(fields: Fields) -> Text {
    "    match:\n    {\n"@ + quoted_line("        "@, "classname"@, value_of(fields, "classname"@))
        + quoted_line("        "@, "origin"@, value_of(fields, "origin"@)) + "    }\n"@
}

/// A sub-block of a modify record that holds one field.
pub open spec fn sub_block(header: Text, key: Text, value: Text) -> Text {
    header + quoted_line("        "@, key, value) + "    }\n"@
}

/// One sub-block for each field, in order, all under the same header.
pub open spec fn sub_blocks(header: Text, fields: Fields) -> Text
    decreases fields.len(),
{
    if fields.len() == 0 {
        Seq::empty()
    } else {
        sub_blocks(header, fields.drop_last()) + sub_block(
            header,
            fields.last().0,
            fields.last().1,
        )
    }
}

/// Each key with the value that the mapping gives it.
pub open spec fn with_values(fields: Fields, keys: Seq<Text>) -> Fields {
    keys.map_values(|k: Text| (k, value_of(fields, k)))
}

/// The record that changes the entity with these fields: the match block,
/// then a replace block for each modified field, a delete block for each
/// removed key with the value it had, and an insert block for each added
/// field.
pub open spec fn modify_record(fields: Fields, delta: DeltaView) -> Text {
    "modify:\n{\n"@ + match_block(fields) + sub_blocks("    replace:\n    {\n"@, delta.modified)
        + sub_blocks("    delete:\n    {\n"@, with_values(fields, delta.removed)) + sub_blocks(
        "    insert:\n    {\n"@,
        delta.added,
    ) + "}\n"@
}

/// The record for a changed entity, or the first field that it lacks among
/// the locating fields and the removed keys.
pub open spec fn modify_outcome(entity: EntityView, delta: DeltaView) -> Result<
    Text,
    MissingFieldView,
> {
    match first_missing(entity.fields, locating_keys() + delta.removed) {
        Some(key) => Err(MissingFieldView { id: entity.id, key }),
        None => Ok(modify_record(entity.fields, delta)),
    }
}

fn push_lines(out: &mut String, pairs: &Vec<(String, String)>)
    ensures
        final(out)@ == old(out)@ + lines("    "@, pairs_view(pairs@)),
{
    let ghost fields = pairs_view(pairs@);
    let mut i: usize = 0;
    while i < pairs.len()
        invariant
            i <= pairs.len(),
            fields == pairs_view(pairs@),
            out@ == old(out)@ + lines("    "@, fields.take(i as int)),
        decreases pairs.len() - i,
    {
        assert(fields.take(i + 1).drop_last() =~= fields.take(i as int));
        push_line(out, "    ", pairs[i].0.as_str(), pairs[i].1.as_str());
        i += 1;
    }
    assert(fields.take(i as int) =~= fields);
}

fn push_connection_lines(out: &mut String, pairs: &Vec<(String, String)>)
    ensures
        final(out)@ == old(out)@ + lines("    "@, rejoined_values(pairs_view(pairs@))),
{
    let ghost fields = rejoined_values(pairs_view(pairs@));
    let mut i: usize = 0;
    while i < pairs.len()
        invariant
            i <= pairs.len(),
            fields == rejoined_values(pairs_view(pairs@)),
            out@ == old(out)@ + lines("    "@, fields.take(i as int)),
        decreases pairs.len() - i,
    {
        assert(fields.take(i + 1).drop_last() =~= fields.take(i as int));
        let value = rejoin_value(pairs[i].1.as_str());
        push_line(out, "    ", pairs[i].0.as_str(), value.as_str());
        i += 1;
    }
    assert(fields.take(i as int) =~= fields);
}

/// Writes the record that adds `entity`.
pub fn create_add_string(entity: &Entity) -> (record: String)
    ensures
        record@ == add_record(entity@),
{
    let mut record = String::new();
    record.append("add:\n{\n");
    push_lines(&mut record, entity.key_values());
    match entity.connections() {
        Some(records) => {
            push_connection_lines(&mut record, records);
        },
        None => {},
    }
    record.append("}\n");
    assert(record@ =~= add_record(entity@));
    record
}

/// Writes the record that removes `entity`. Fails where the entity lacks
/// `classname` or `origin`, and names the first of the two that it lacks.
pub fn create_filter_string(entity: &Entity) -> (record: Result<String, MissingField>)
    ensures
        record_view(record) == filter_outcome(entity@),
{
    let ghost keys = locating_keys();
    assert(keys.drop_first() =~= seq!["origin"@]);
    assert(keys.drop_first().drop_first() =~= Seq::<Text>::empty());
    let classname = match entity.get("classname") {
        Some(value) => value,
        None => {
            return Err(MissingField { id: entity.id(), key: String::from_str("classname") });
        },
    };
    let origin = match entity.get("origin") {
        Some(value) => value,
        None => {
            return Err(MissingField { id: entity.id(), key: String::from_str("origin") });
        },
    };
    assert(first_missing(entity@.fields, keys.drop_first().drop_first()) is None);
    assert(keys.drop_first()[0] == "origin"@);
    assert(first_missing(entity@.fields, keys.drop_first()) is None);
    let mut record = String::new();
    record.append("filter:\n{\n");
    push_line(&mut record, "    ", "classname", classname.as_str());
    push_line(&mut record, "    ", "origin", origin.as_str());
    record.append("}\n");
    assert(record@ =~= filter_record(entity@.fields));
    Ok(record)
}

/// Where every key before position `at` is present and the key there is
/// not, that key is the first one missing.
proof fn lemma_first_missing_at(fields: Fields, keys: Seq<Text>, at: int)
    requires
        0 <= at < keys.len(),
        forall|k: int| 0 <= k < at ==> has_key(fields, #[trigger] keys[k]),
        !has_key(fields, keys[at]),
    ensures
        first_missing(fields, keys) == Some(keys[at]),
    decreases keys.len(),
{
    if at > 0 {
        let rest = keys.drop_first();
        assert forall|k: int| 0 <= k < at - 1 implies has_key(fields, #[trigger] rest[k]) by {
            assert(rest[k] == keys[k + 1]);
        }
        lemma_first_missing_at(fields, rest, at - 1);
    }
}

/// Where every key is present, none is missing.
proof fn lemma_none_missing(fields: Fields, keys: Seq<Text>)
    requires
        forall|k: int| 0 <= k < keys.len() ==> has_key(fields, #[trigger] keys[k]),
    ensures
        first_missing(fields, keys) is None,
    decreases keys.len(),
{
    if keys.len() > 0 {
        let rest = keys.drop_first();
        assert forall|k: int| 0 <= k < rest.len() implies has_key(fields, #[trigger] rest[k]) by {
            assert(rest[k] == keys[k + 1]);
        }
        lemma_none_missing(fields, rest);
    }
}

fn push_sub_blocks(out: &mut String, header: &str, pairs: &Vec<(&str, &str)>)
    ensures
        final(out)@ == old(out)@ + sub_blocks(header@, str_pairs_view(pairs@)),
{
    let ghost fields = str_pairs_view(pairs@);
    let mut i: usize = 0;
    while i < pairs.len()
        invariant
            i <= pairs.len(),
            fields == str_pairs_view(pairs@),
            out@ == old(out)@ + sub_blocks(header@, fields.take(i as int)),
        decreases pairs.len() - i,
    {
        assert(fields.take(i + 1).drop_last() =~= fields.take(i as int));
        let ghost before = out@;
        out.append(header);
        push_line(out, "        ", pairs[i].0, pairs[i].1);
        out.append("    }\n");
        assert(out@ =~= before + sub_block(header@, fields[i as int].0, fields[i as int].1));
        i += 1;
    }
    assert(fields.take(i as int) =~= fields);
}

/// Writes the record that changes `entity`, which is the entity as it was
/// before the change. Fails where the entity lacks `classname`, `origin` or
/// one of the removed keys, and names the first of them that it lacks.
pub fn create_modify_string(
    entity: &Entity,
    added: &Vec<(&str, &str)>,
    removed: &Vec<&str>,
    modified: &Vec<(&str, &str)>,
) -> (record: Result<String, MissingField>)
    ensures
        record_view(record) == modify_outcome(
            entity@,
            DeltaView {
                added: str_pairs_view(added@),
                removed: strs_view(removed@),
                modified: str_pairs_view(modified@),
            },
        ),
{
    let ghost fields = entity@.fields;
    let ghost gone = strs_view(removed@);
    let ghost needed = locating_keys() + gone;
    let classname = match entity.get("classname") {
        Some(value) => value,
        None => {
            proof {
                lemma_first_missing_at(fields, needed, 0);
            }
            return Err(MissingField { id: entity.id(), key: String::from_str("classname") });
        },
    };
    let origin = match entity.get("origin") {
        Some(value) => value,
        None => {
            proof {
                lemma_first_missing_at(fields, needed, 1);
            }
            return Err(MissingField { id: entity.id(), key: String::from_str("origin") });
        },
    };
    let mut deleted: Vec<(&str, &str)> = Vec::new();
    let mut i: usize = 0;
    while i < removed.len()
        invariant
            i <= removed.len(),
            fields == entity@.fields,
            gone == strs_view(removed@),
            needed == locating_keys() + gone,
            has_key(fields, "classname"@),
            has_key(fields, "origin"@),
            forall|k: int| 0 <= k < i ==> has_key(fields, #[trigger] gone[k]),
            str_pairs_view(deleted@) == with_values(fields, gone.take(i as int)),
        decreases removed.len() - i,
    {
        match entity.get(removed[i]) {
            Some(value) => {
                let ghost before = deleted@;
                deleted.push((removed[i], value.as_str()));
                assert(str_pairs_view(deleted@) =~= str_pairs_view(before).push(
                    (gone[i as int], value@),
                ));
                assert(with_values(fields, gone.take(i + 1)) =~= with_values(
                    fields,
                    gone.take(i as int),
                ).push((gone[i as int], value_of(fields, gone[i as int]))));
            },
            None => {
                proof {
                    assert forall|k: int| 0 <= k < i + 2 implies has_key(
                        fields,
                        #[trigger] needed[k],
                    ) by {
                        if k >= 2 {
                            assert(needed[k] == gone[k - 2]);
                        }
                    }
                    assert(needed[i + 2] == gone[i as int]);
                    lemma_first_missing_at(fields, needed, i + 2);
                }
                return Err(MissingField { id: entity.id(), key: String::from_str(removed[i]) });
            },
        }
        i += 1;
    }
    proof {
        assert(gone.take(i as int) =~= gone);
        assert forall|k: int| 0 <= k < needed.len() implies has_key(fields, #[trigger] needed[k]) by {
            if k >= 2 {
                assert(needed[k] == gone[k - 2]);
            }
        }
        lemma_none_missing(fields, needed);
    }
    let mut record = String::new();
    record.append("modify:\n{\n");
    record.append("    match:\n    {\n");
    push_line(&mut record, "        ", "classname", classname.as_str());
    push_line(&mut record, "        ", "origin", origin.as_str());
    record.append("    }\n");
    assert(record@ =~= "modify:\n{\n"@ + match_block(fields));
    push_sub_blocks(&mut record, "    replace:\n    {\n", modified);
    push_sub_blocks(&mut record, "    delete:\n    {\n", &deleted);
    push_sub_blocks(&mut record, "    insert:\n    {\n", added);
    record.append("}\n");
    Ok(record)
}

/// The record for one outcome, or the field whose absence leaves the
/// outcome without a record.
pub open spec fn record_of(outcome: OutcomeView) -> Result<Text, MissingFieldView> {
    match outcome {
        OutcomeView::Added(entity) => Ok(add_record(entity)),
        OutcomeView::Removed(entity) => filter_outcome(entity),
        OutcomeView::Modified { entity, delta } => modify_outcome(entity, delta),
    }
}

/// Writes the record for one outcome: an add record for an added entity, a
/// filter record for a removed one, a modify record for a changed one.
pub fn emit_record(outcome: &DiffOutcome) -> (record: Result<String, MissingField>)
    ensures
        record_view(record) == record_of(outcome@),
{
    match outcome {
        DiffOutcome::Added(entity) => Ok(create_add_string(entity)),
        DiffOutcome::Removed(entity) => create_filter_string(entity),
        DiffOutcome::Modified { entity, added_fields, removed_fields, modified_fields } => {
            create_modify_string(entity, added_fields, removed_fields, modified_fields)
        },
    }
}

} // verus!

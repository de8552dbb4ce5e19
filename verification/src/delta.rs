use crate::entity::{
    distinct_keys, field_map, has_key, keys_of, lemma_value_at, pairs_view, value_of, Entity,
    Fields, Text,
};
use vstd::prelude::*;

verus! {

/// The pairs of a vector of borrowed strings, each taken by its view.
pub open spec fn str_pairs_view(pairs: Seq<(&str, &str)>) -> Fields {
    pairs.map_values(|p: (&str, &str)| (p.0@, p.1@))
}

/// The views of a vector of borrowed strings.
pub open spec fn strs_view(strs: Seq<&str>) -> Seq<Text> {
    strs.map_values(|s: &str| s@)
}

/// The fields of `new` whose key `old` lacks, in the order of `new`.
pub open spec fn added_fields(old: Fields, new: Fields) -> Fields {
    new.filter(|f: (Text, Text)| !has_key(old, f.0))
}

/// The keys of `old` that `new` lacks, in the order of `old`.
pub open spec fn removed_keys(old: Fields, new: Fields) -> Seq<Text> {
    keys_of(old.filter(|f: (Text, Text)| !has_key(new, f.0)))
}

/// The keys of `old` that `new` has with another value, each with the value
/// that `new` gives it, in the order of `old`.
pub open spec fn modified_fields(old: Fields, new: Fields) -> Fields {
    old.filter(|f: (Text, Text)| has_key(new, f.0) && value_of(new, f.0) != f.1).map_values(
        |f: (Text, Text)| (f.0, value_of(new, f.0)),
    )
}

/// What changed between two mappings, field by field, as the contracts
/// see it.
pub struct DeltaView {
    pub added: Fields,
    pub removed: Seq<Text>,
    pub modified: Fields,
}

impl DeltaView {
    /// Nothing was added, removed or modified.
    pub open spec fn is_empty(self) -> bool {
        self.added.len() == 0 && self.removed.len() == 0 && self.modified.len() == 0
    }
}

/// What changed from `old` to `new`.
pub open spec fn delta_of(old: Fields, new: Fields) -> DeltaView {
    DeltaView {
        added: added_fields(old, new),
        removed: removed_keys(old, new),
        modified: modified_fields(old, new),
    }
}

/// The mapping that a delta turns `old` into: the removed keys leave, the
/// added fields come in, and the modified fields overwrite what is there.
pub open spec fn apply_delta(old: Map<Text, Text>, delta: DeltaView) -> Map<Text, Text> {
    old.remove_keys(delta.removed.to_set()).union_prefer_right(
        field_map(delta.added),
    ).union_prefer_right(field_map(delta.modified))
}

/// A key of a mapping sits at some position of it.
proof fn lemma_key_position(fields: Fields, key: Text) -> (i: int)
    requires
        has_key(fields, key),
    ensures
        0 <= i < fields.len(),
        fields[i].0 == key,
        i == keys_of(fields).index_of(key),
{
    let i = keys_of(fields).index_of(key);
    assert(0 <= i < keys_of(fields).len() && keys_of(fields)[i] == key);
    i
}

/// The keys that a filter keeps are the keys of the fields that pass it,
/// and a kept key has a value that it had before.
proof fn lemma_filter_keys(fields: Fields, pred: spec_fn((Text, Text)) -> bool, key: Text)
    ensures
        has_key(fields.filter(pred), key) <==> exists|i: int|
            0 <= i < fields.len() && #[trigger] fields[i].0 == key && pred(fields[i]),
        has_key(fields.filter(pred), key) ==> exists|i: int|
            0 <= i < fields.len() && #[trigger] fields[i].0 == key && pred(fields[i])
                && fields[i].1 == value_of(fields.filter(pred), key),
{
    let kept = fields.filter(pred);
    if has_key(kept, key) {
        let k = lemma_key_position(kept, key);
        fields.lemma_filter_pred(pred, k);
        assert(kept.contains(kept[k]));
        fields.lemma_filter_contains_rev(pred, kept[k]);
        let i = choose|i: int| 0 <= i < fields.len() && fields[i] == kept[k];
        assert(fields[i].0 == key && pred(fields[i]));
    }
    if exists|i: int| 0 <= i < fields.len() && #[trigger] fields[i].0 == key && pred(fields[i]) {
        let i = choose|i: int| 0 <= i < fields.len() && #[trigger] fields[i].0 == key && pred(fields[i]);
        fields.lemma_filter_contains(pred, i);
        let k = choose|k: int| 0 <= k < kept.len() && kept[k] == fields[i];
        assert(keys_of(kept)[k] == key);
    }
}

/// Nothing changed between two mappings exactly when they hold the same
/// keys with the same values, in whatever order.
pub proof fn lemma_unchanged_iff_same_mapping(old: Fields, new: Fields)
    requires
        distinct_keys(old),
    ensures
        delta_of(old, new).is_empty() <==> field_map(old) == field_map(new),
{
    let gone = |f: (Text, Text)| !has_key(new, f.0);
    let changed = |f: (Text, Text)| has_key(new, f.0) && value_of(new, f.0) != f.1;
    let fresh = |f: (Text, Text)| !has_key(old, f.0);
    let delta = delta_of(old, new);
    if delta.is_empty() {
        assert forall|k: Text| has_key(old, k) == has_key(new, k) by {
            if has_key(new, k) && !has_key(old, k) {
                let j = lemma_key_position(new, k);
                new.lemma_filter_contains(fresh, j);
            }
            if has_key(old, k) && !has_key(new, k) {
                let i = lemma_key_position(old, k);
                old.lemma_filter_contains(gone, i);
            }
        }
        assert forall|k: Text| has_key(old, k) implies value_of(old, k) == value_of(new, k) by {
            let i = lemma_key_position(old, k);
            if value_of(new, k) != old[i].1 {
                old.lemma_filter_contains(changed, i);
            }
        }
        assert(field_map(old) =~= field_map(new));
    }
    if field_map(old) == field_map(new) {
        assert forall|k: Text| has_key(old, k) == has_key(new, k) by {
            assert(field_map(old).dom().contains(k) == has_key(old, k));
            assert(field_map(new).dom().contains(k) == has_key(new, k));
        }
        assert forall|j: int| 0 <= j < new.len() implies !fresh(#[trigger] new[j]) by {
            assert(keys_of(new)[j] == new[j].0);
        }
        new.lemma_all_neg_filter_empty(fresh);
        assert forall|i: int| 0 <= i < old.len() implies !gone(#[trigger] old[i]) by {
            assert(keys_of(old)[i] == old[i].0);
        }
        old.lemma_all_neg_filter_empty(gone);
        assert forall|i: int| 0 <= i < old.len() implies !changed(#[trigger] old[i]) by {
            lemma_value_at(old, i);
            assert(field_map(old)[old[i].0] == old[i].1);
            assert(field_map(new)[old[i].0] == value_of(new, old[i].0));
        }
        old.lemma_all_neg_filter_empty(changed);
    }
}

/// A delta taken from `old` to `new` and applied to `old` gives `new`: the
/// removed keys leave, the added fields come in, the modified fields
/// overwrite.
pub proof fn lemma_delta_round_trip(old: Fields, new: Fields)
    requires
        distinct_keys(old),
        distinct_keys(new),
    ensures
        apply_delta(field_map(old), delta_of(old, new)) == field_map(new),
{
    let gone = |f: (Text, Text)| !has_key(new, f.0);
    let changed = |f: (Text, Text)| has_key(new, f.0) && value_of(new, f.0) != f.1;
    let renew = |f: (Text, Text)| (f.0, value_of(new, f.0));
    let fresh = |f: (Text, Text)| !has_key(old, f.0);
    let delta = delta_of(old, new);
    let kept = old.filter(changed);
    let applied = apply_delta(field_map(old), delta);

    assert forall|k: Text| delta.removed.contains(k) <==> has_key(old, k) && !has_key(new, k) by {
        lemma_filter_keys(old, gone, k);
        assert(delta.removed.contains(k) == has_key(old.filter(gone), k));
        if has_key(old, k) && !has_key(new, k) {
            let i = lemma_key_position(old, k);
            assert(old[i].0 == k && gone(old[i]));
        }
        if has_key(old.filter(gone), k) {
            let i = choose|i: int| 0 <= i < old.len() && #[trigger] old[i].0 == k && gone(old[i]);
            assert(keys_of(old)[i] == k);
        }
    }
    assert forall|k: Text| has_key(delta.added, k) <==> has_key(new, k) && !has_key(old, k) by {
        lemma_filter_keys(new, fresh, k);
        if has_key(new, k) && !has_key(old, k) {
            let j = lemma_key_position(new, k);
            assert(new[j].0 == k && fresh(new[j]));
        }
        if has_key(delta.added, k) {
            let j = choose|j: int| 0 <= j < new.len() && #[trigger] new[j].0 == k && fresh(new[j]);
            assert(keys_of(new)[j] == k);
        }
    }
    assert forall|k: Text| has_key(delta.added, k) implies value_of(delta.added, k) == value_of(
        new,
        k,
    ) by {
        lemma_filter_keys(new, fresh, k);
        let j = choose|j: int|
            0 <= j < new.len() && #[trigger] new[j].0 == k && fresh(new[j]) && new[j].1
                == value_of(delta.added, k);
        lemma_value_at(new, j);
    }
    assert(keys_of(delta.modified) =~= keys_of(kept));
    assert forall|k: Text| has_key(delta.modified, k) <==> has_key(old, k) && has_key(new, k)
        && value_of(old, k) != value_of(new, k) by {
        lemma_filter_keys(old, changed, k);
        if has_key(old, k) && has_key(new, k) && value_of(old, k) != value_of(new, k) {
            let i = lemma_key_position(old, k);
            assert(old[i].0 == k && changed(old[i]));
        }
        if has_key(kept, k) {
            let i = choose|i: int| 0 <= i < old.len() && #[trigger] old[i].0 == k && changed(old[i]);
            lemma_value_at(old, i);
        }
    }
    assert forall|k: Text| has_key(delta.modified, k) implies value_of(delta.modified, k)
        == value_of(new, k) by {
        let m = lemma_key_position(delta.modified, k);
        assert(delta.modified[m] == renew(kept[m]));
    }
    assert forall|k: Text| applied.dom().contains(k) == field_map(new).dom().contains(k) by {
        assert(delta.removed.to_set().contains(k) == delta.removed.contains(k));
    }
    assert forall|k: Text| applied.dom().contains(k) implies applied[k] == field_map(new)[k] by {
        assert(delta.removed.to_set().contains(k) == delta.removed.contains(k));
    }
    assert(applied =~= field_map(new));
}

/// What changed between two entities' mappings: the strings are borrowed
/// from the entities that were compared.
#[derive(Debug)]
pub struct FieldDelta<'a> {
    pub added: Vec<(&'a str, &'a str)>,
    pub removed: Vec<&'a str>,
    pub modified: Vec<(&'a str, &'a str)>,
}

impl<'a> View for FieldDelta<'a> {
    type V = DeltaView;

    open spec fn view(&self) -> DeltaView {
        DeltaView {
            added: str_pairs_view(self.added@),
            removed: strs_view(self.removed@),
            modified: str_pairs_view(self.modified@),
        }
    }
}

impl<'a> FieldDelta<'a> {
    /// Whether nothing changed.
    pub fn is_empty(&self) -> (empty: bool)
        ensures
            empty == self@.is_empty(),
    {
        self.added.len() == 0 && self.removed.len() == 0 && self.modified.len() == 0
    }
}

/// Compares the mappings of two entities field by field.
pub fn field_delta<'a>(old: &'a Entity, new: &'a Entity) -> (delta: FieldDelta<'a>)
    ensures
        delta@ == delta_of(old@.fields, new@.fields),
{
    let old_pairs = old.key_values();
    let new_pairs = new.key_values();
    let ghost old_fields = old@.fields;
    let ghost new_fields = new@.fields;
    let ghost gone = |f: (Text, Text)| !has_key(new_fields, f.0);
    let ghost changed = |f: (Text, Text)| has_key(new_fields, f.0) && value_of(new_fields, f.0) != f.1;
    let ghost renew = |f: (Text, Text)| (f.0, value_of(new_fields, f.0));
    let ghost fresh = |f: (Text, Text)| !has_key(old_fields, f.0);
    let ghost key = |f: (Text, Text)| f.0;

    let mut removed: Vec<&'a str> = Vec::new();
    let mut modified: Vec<(&'a str, &'a str)> = Vec::new();
    assert(old_fields.take(0).filter(gone) =~= Seq::empty()
        && old_fields.take(0).filter(changed) =~= Seq::empty()) by {
        reveal(Seq::filter);
    }
    let mut i: usize = 0;
    while i < old_pairs.len()
        invariant
            i <= old_pairs.len(),
            pairs_view(old_pairs@) == old_fields,
            new@.fields == new_fields,
            gone == |f: (Text, Text)| !has_key(new_fields, f.0),
            changed == |f: (Text, Text)|
                has_key(new_fields, f.0) && value_of(new_fields, f.0) != f.1,
            renew == |f: (Text, Text)| (f.0, value_of(new_fields, f.0)),
            key == |f: (Text, Text)| f.0,
            strs_view(removed@) == old_fields.take(i as int).filter(gone).map_values(key),
            str_pairs_view(modified@) == old_fields.take(i as int).filter(changed).map_values(
                renew,
            ),
        decreases old_pairs.len() - i,
    {
        let pair = &old_pairs[i];
        let ghost field = old_fields[i as int];
        let ghost seen = old_fields.take(i as int);
        proof {
            assert(field == (pair.0@, pair.1@));
            assert(old_fields.take(i + 1) =~= seen.push(field));
            seen.lemma_filter_push(field, gone);
            seen.lemma_filter_push(field, changed);
        }
        match new.get(pair.0.as_str()) {
            Some(value) => {
                if *value != pair.1 {
                    let ghost before = modified@;
                    modified.push((pair.0.as_str(), value.as_str()));
                    proof {
                        assert(str_pairs_view(modified@) =~= str_pairs_view(before).push(
                            renew(field),
                        ));
                        seen.filter(changed).lemma_push_map_commute(renew, field);
                    }
                }
            },
            None => {
                let ghost before = removed@;
                removed.push(pair.0.as_str());
                proof {
                    assert(strs_view(removed@) =~= strs_view(before).push(key(field)));
                    seen.filter(gone).lemma_push_map_commute(key, field);
                }
            },
        }
        i += 1;
    }
    assert(old_fields.take(i as int) =~= old_fields);

    let mut added: Vec<(&'a str, &'a str)> = Vec::new();
    assert(new_fields.take(0).filter(fresh) =~= Seq::empty()) by {
        reveal(Seq::filter);
    }
    let mut j: usize = 0;
    while j < new_pairs.len()
        invariant
            j <= new_pairs.len(),
            pairs_view(new_pairs@) == new_fields,
            old@.fields == old_fields,
            fresh == |f: (Text, Text)| !has_key(old_fields, f.0),
            str_pairs_view(added@) == new_fields.take(j as int).filter(fresh),
        decreases new_pairs.len() - j,
    {
        let pair = &new_pairs[j];
        let ghost field = new_fields[j as int];
        let ghost seen = new_fields.take(j as int);
        proof {
            assert(field == (pair.0@, pair.1@));
            assert(new_fields.take(j + 1) =~= seen.push(field));
            seen.lemma_filter_push(field, fresh);
        }
        if !old.contains_key(pair.0.as_str()) {
            let ghost before = added@;
            added.push((pair.0.as_str(), pair.1.as_str()));
            assert(str_pairs_view(added@) =~= str_pairs_view(before).push(field));
        }
        j += 1;
    }
    assert(new_fields.take(j as int) =~= new_fields);
    FieldDelta { added, removed, modified }
}

} // verus!
